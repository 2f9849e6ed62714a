//! Segmentation of a word into `prefix* root suffix*`, scored and ranked.

use vstd::prelude::*;

use crate::index::{
    built_from, canonical_of, first_affix_only, first_attested, ids_settled, is_max_len, lemma_canonical_resolves, listed_match,
    root_hit,
    IndexModel, MorphemeIndex, RootHit, RootMatch,
};
use crate::morpheme::MorphemeModel;
use crate::ortho::underlying_forms;
use crate::morpheme::MorphemeKind;
use crate::ortho::OrthoRule;
use crate::decomposition::{MorphemeRef, refs_view, clone_refs};
use crate::text::{lowercase, str_lt, string_from_chars, str_chars, chars_lt, chars_eq, to_lowercase};

verus! {

/// Structural bounds on the morpheme grammar `prefix* root suffix*`.
pub const MAX_PREFIXES: usize = 3;
pub const MAX_SUFFIXES: usize = 3;
/// One-character affixes are overwhelmingly noise; two is the shortest
/// generally productive affix (the one exception is a word-final `-y`).
pub const MIN_AFFIX_LEN: usize = 2;
/// The shortest root accepted as written.
pub const MIN_ROOT_LEN: usize = 3;
/// The shortest root slot searched: one less than [`MIN_ROOT_LEN`], because
/// the silent-e rule the index reverses can shorten a stem by one (`usable`
/// leaves only `us` for `use`). Literal readings of such a slot are still
/// refused by `MorphemeIndex::match_root`.
pub const MIN_ROOT_SLOT_LEN: usize = 2;
/// Refuse to enumerate pathologically long inputs.
pub const MAX_WORD_LEN: usize = 40;

/// A form only ever attested as an affix is a much weaker root than a real one.
pub const SCORE_AFFIX_ONLY_ROOT: i32 = 100;
/// Two-character segments are usually coincidental substring hits.
pub const SCORE_SHORT_SEGMENT: i32 = 30;
/// Charged per prefix beyond the first.
pub const SCORE_EXTRA_PREFIX: i32 = 26;
/// A word ending in a bare root of at most [`MIN_ROOT_LEN`] characters.
pub const SCORE_FINAL_SHORT_ROOT: i32 = 30;
/// Reward pushing the root rightward, per character before it.
pub const SCORE_ROOT_START: i32 = 8;
/// Prefer the longer root, per character.
pub const SCORE_ROOT_LEN: i32 = 3;
/// Mild pressure against splitting further than necessary, per segment.
pub const SCORE_PER_SEGMENT: i32 = 2;
/// Charged for a word-final one-character suffix.
pub const SCORE_ONE_CHAR_SUFFIX: i32 = 25;
/// Parses scoring below this are reported as no analysis at all.
pub const SCORE_MIN_ACCEPTABLE: i32 = -60;

/// Which end of the word affixes are stripped from.
#[derive(Clone, Copy, PartialEq, Eq, Structural)]
pub enum Side {
    Prefix,
    Suffix,
}

/// The only one-character suffix admitted, and only word-finally: `-y`.
pub open spec fn spec_final_one_char_suffix(c: char) -> bool {
    c == 'y'
}

pub open spec fn sum(c: Seq<usize>) -> int
    decreases c.len(),
{
    if c.len() == 0 {
        0
    } else {
        sum(c.drop_last()) + c.last()
    }
}

/// Where the unstripped region begins (prefixes) or ends (suffixes) once the
/// affixes of chain `c` are taken off.
pub open spec fn chain_pos(n: int, side: Side, c: Seq<usize>) -> int {
    match side {
        Side::Prefix => sum(c),
        Side::Suffix => n - sum(c),
    }
}

/// Stripping one more affix of `l` characters after chain `c`: it must be a
/// listed affix of that side, no longer than the longest listed one, at
/// least [`MIN_AFFIX_LEN`] long (a word-final suffix may be a lone `y`), and
/// leave at least [`MIN_ROOT_SLOT_LEN`] characters for the root.
pub open spec fn step_ok(chars: Seq<char>, idx: IndexModel, side: Side, c: Seq<usize>, l: int) -> bool {
    let n = chars.len() as int;
    let pos = chain_pos(n, side, c);
    match side {
        Side::Prefix => {
            &&& MIN_AFFIX_LEN <= l <= idx.max_prefix_len
            &&& pos + l + MIN_ROOT_SLOT_LEN <= n
            &&& idx.prefixes.contains(chars.subrange(pos, pos + l))
        },
        Side::Suffix => {
            &&& (if pos == n { 1 } else { MIN_AFFIX_LEN as int }) <= l <= idx.max_suffix_len
            &&& pos - l >= MIN_ROOT_SLOT_LEN
            &&& (l == 1 ==> spec_final_one_char_suffix(chars[pos - 1]))
            &&& idx.suffixes.contains(chars.subrange(pos - l, pos))
        },
    }
}

pub open spec fn max_depth(side: Side) -> int {
    match side {
        Side::Prefix => MAX_PREFIXES as int,
        Side::Suffix => MAX_SUFFIXES as int,
    }
}

/// A chain of affix lengths strippable from one end, in the order they are
/// stripped (prefixes left to right, suffixes right to left).
pub open spec fn valid_chain(chars: Seq<char>, idx: IndexModel, side: Side, c: Seq<usize>) -> bool {
    &&& c.len() <= max_depth(side)
    &&& forall|i: int| 0 <= i < c.len() ==> #[trigger] step_ok(chars, idx, side, c.take(i), c[i] as int)
}

pub open spec fn chains_view(v: Seq<Vec<usize>>) -> Seq<Seq<usize>> {
    v.map_values(|c: Vec<usize>| c@)
}

/// `out` lists, without repetition, exactly the valid chains that start
/// with `c`.
pub open spec fn lists_extensions(chars: Seq<char>, idx: IndexModel, side: Side, c: Seq<usize>, out: Seq<Seq<usize>>) -> bool {
    &&& out.no_duplicates()
    &&& forall|q: Seq<usize>| #[trigger] out.contains(q) <==> (valid_chain(chars, idx, side, q) && c.is_prefix_of(q))
}

proof fn lemma_sum_push(c: Seq<usize>, l: usize)
    ensures
        sum(c.push(l)) == sum(c) + l,
{
    assert(c.push(l).drop_last() == c);
}

proof fn lemma_sum_nonneg(c: Seq<usize>)
    ensures
        sum(c) >= 0,
    decreases c.len(),
{
    if c.len() > 0 {
        lemma_sum_nonneg(c.drop_last());
    }
}

/// A word ending in `y`, with `y` listed as a suffix, may have that lone `y`
/// stripped as its last suffix, as long as [`MIN_ROOT_SLOT_LEN`] characters
/// are left for the root (`bio`-`graph`-`y`).
pub proof fn lemma_final_y_suffix_chain(chars: Seq<char>, idx: IndexModel)
    requires
        chars.len() >= 1 + MIN_ROOT_SLOT_LEN,
        chars[chars.len() - 1] == 'y',
        idx.suffixes.contains(seq!['y']),
        is_max_len(idx.suffixes, idx.max_suffix_len),
    ensures
        valid_chain(chars, idx, Side::Suffix, seq![1usize]),
{
    let c = seq![1usize];
    let n = chars.len() as int;
    assert(c.take(0) =~= Seq::<usize>::empty());
    assert(sum(c.take(0)) == 0);
    assert(chars.subrange(n - 1, n) =~= seq!['y']);
    assert(step_ok(chars, idx, Side::Suffix, c.take(0), c[0] as int));
}

/// Affixes stripped are at least [`MIN_AFFIX_LEN`] characters long, with one
/// exception: a lone `y` at the very end of the word, which can only be the
/// first suffix stripped.
pub proof fn lemma_chain_affix_lengths(chars: Seq<char>, idx: IndexModel, side: Side, c: Seq<usize>)
    requires
        valid_chain(chars, idx, side, c),
    ensures
        forall|i: int| 0 <= i < c.len() ==> c[i] >= 1,
        forall|i: int| 0 <= i < c.len() && c[i] < MIN_AFFIX_LEN ==> side == Side::Suffix && i == 0 && c[i] == 1
            && chars.len() > 0 && chars[chars.len() - 1] == 'y',
{
    let n = chars.len() as int;
    assert forall|i: int| 0 <= i < c.len() implies c[i] >= 1 by {
        assert(step_ok(chars, idx, side, c.take(i), c[i] as int));
    }
    assert forall|i: int| 0 <= i < c.len() && c[i] < MIN_AFFIX_LEN implies side == Side::Suffix && i == 0 && c[i] == 1
        && chars.len() > 0 && chars[chars.len() - 1] == 'y' by {
        assert(step_ok(chars, idx, side, c.take(i), c[i] as int));
        if i > 0 {
            let t = c.take(i);
            assert(t.drop_last() =~= c.take(i - 1));
            lemma_sum_nonneg(c.take(i - 1));
            assert(step_ok(chars, idx, side, c.take(i - 1), c[i - 1] as int));
            assert(sum(t) == sum(c.take(i - 1)) + c[i - 1]);
        } else {
            assert(c.take(0) =~= Seq::<usize>::empty());
        }
    }
}

/// Extending a valid chain by one valid step gives a valid chain, and every
/// longer valid chain extends one of its one-step extensions.
proof fn lemma_chain_step(chars: Seq<char>, idx: IndexModel, side: Side, c: Seq<usize>)
    requires
        valid_chain(chars, idx, side, c),
    ensures
        forall|l: usize| #[trigger] valid_chain(chars, idx, side, c.push(l)) <==> (c.len() < max_depth(side)
            && step_ok(chars, idx, side, c, l as int)),
        forall|q: Seq<usize>| c.is_prefix_of(q) && q.len() > c.len() ==> (#[trigger] valid_chain(chars, idx, side, q)
            ==> valid_chain(chars, idx, side, c.push(q[c.len() as int]))),
        forall|q: Seq<usize>, l: usize| #[trigger] c.push(l).is_prefix_of(q) ==> c.is_prefix_of(q) && q.len() > c.len() && q[c.len() as int] == l,
{
    assert forall|l: usize| #[trigger] valid_chain(chars, idx, side, c.push(l)) <==> (c.len() < max_depth(side)
        && step_ok(chars, idx, side, c, l as int)) by {
        let d = c.push(l);
        assert(d.take(c.len() as int) == c);
        if c.len() < max_depth(side) && step_ok(chars, idx, side, c, l as int) {
            assert forall|i: int| 0 <= i < d.len() implies #[trigger] step_ok(chars, idx, side, d.take(i), d[i] as int) by {
                if i < c.len() {
                    assert(d.take(i) == c.take(i));
                    assert(step_ok(chars, idx, side, c.take(i), c[i] as int));
                }
            }
        }
        if valid_chain(chars, idx, side, d) {
            assert(step_ok(chars, idx, side, d.take(c.len() as int), d[c.len() as int] as int));
        }
    }
    assert forall|q: Seq<usize>| c.is_prefix_of(q) && q.len() > c.len() && #[trigger] valid_chain(chars, idx, side, q)
        implies valid_chain(chars, idx, side, c.push(q[c.len() as int])) by {
        let k = c.len() as int;
        let d = c.push(q[k]);
        assert(d == q.take(k + 1));
        assert forall|i: int| 0 <= i < d.len() implies #[trigger] step_ok(chars, idx, side, d.take(i), d[i] as int) by {
            assert(d.take(i) == q.take(i));
            assert(step_ok(chars, idx, side, q.take(i), q[i] as int));
        }
    }
    assert forall|q: Seq<usize>, l: usize| #[trigger] c.push(l).is_prefix_of(q) implies c.is_prefix_of(q) && q.len() > c.len() && q[c.len() as int] == l by {
        assert(c.push(l)[c.len() as int] == l);
        assert forall|i: int| 0 <= i < c.len() implies c[i] == q[i] by {
            assert(c.push(l)[i] == c[i]);
        }
    }
}

/// A copy of a list of lengths.
fn copy_lengths(v: &Vec<usize>) -> (r: Vec<usize>)
    ensures
        r@ == v@,
{
    let mut r: Vec<usize> = Vec::new();
    let mut i: usize = 0;
    while i < v.len()
        invariant
            i <= v@.len(),
            r@ == v@.take(i as int),
        decreases v@.len() - i,
    {
        r.push(v[i]);
        assert(v@.take(i + 1) == v@.take(i as int).push(v@[i as int]));
        i = i + 1;
    }
    assert(v@.take(v@.len() as int) == v@);
    r
}

/// The position left by a valid chain lies within the word, leaving at
/// least [`MIN_ROOT_SLOT_LEN`] characters whenever anything was stripped.
proof fn lemma_chain_pos_bounds(chars: Seq<char>, idx: IndexModel, side: Side, c: Seq<usize>)
    requires
        valid_chain(chars, idx, side, c),
    ensures
        0 <= chain_pos(chars.len() as int, side, c) <= chars.len(),
        c.len() > 0 && side == Side::Prefix ==> sum(c) + MIN_ROOT_SLOT_LEN <= chars.len(),
        c.len() > 0 && side == Side::Suffix ==> chars.len() - sum(c) >= MIN_ROOT_SLOT_LEN,
        c.len() == 0 ==> sum(c) == 0,
        c.len() > 0 ==> sum(c) >= 1,
{
    lemma_sum_nonneg(c);
    if c.len() > 0 {
        let k = c.len() - 1;
        assert(step_ok(chars, idx, side, c.take(k), c[k] as int));
        assert(c.take(k) == c.drop_last());
        lemma_sum_nonneg(c.drop_last());
    }
}

/// Every chain that some step extends is covered by the loop up to `l`.
pub open spec fn covered(chars: Seq<char>, idx: IndexModel, side: Side, c: Seq<usize>, l: int, q: Seq<usize>) -> bool {
    &&& valid_chain(chars, idx, side, q)
    &&& c.is_prefix_of(q)
    &&& (q.len() == c.len() || q[c.len() as int] < l)
}

/// Appends to `out` every valid chain that starts with `chain`, `chain`
/// itself first.
fn collect_chains(
    chars: &Vec<char>,
    index: &MorphemeIndex,
    side: Side,
    chain: Vec<usize>,
    pos: usize,
    out: &mut Vec<Vec<usize>>,
)
    requires
        chars@.len() <= MAX_WORD_LEN,
        valid_chain(chars@, index@, side, chain@),
        pos == chain_pos(chars@.len() as int, side, chain@),
    ensures
        final(out)@.len() >= old(out)@.len(),
        chains_view(final(out)@).take(old(out)@.len() as int) == chains_view(old(out)@),
        lists_extensions(chars@, index@, side, chain@, chains_view(final(out)@).skip(old(out)@.len() as int)),
    decreases max_depth(side) - chain@.len(),
{
    broadcast use vstd::seq_lib::lemma_seq_concat_contains_all_elements;

    let ghost start = old(out)@.len() as int;
    let ghost c = chain@;
    let ghost k = c.len() as int;
    let n = chars.len();
    proof {
        lemma_chain_pos_bounds(chars@, index@, side, c);
        lemma_chain_step(chars@, index@, side, c);
    }
    out.push(copy_lengths(&chain));
    proof {
        assert(chains_view(out@).take(start) =~= chains_view(old(out)@));
        assert(chains_view(out@).skip(start) =~= seq![c]);
        assert forall|q: Seq<usize>| #[trigger] chains_view(out@).skip(start).contains(q) <==> covered(chars@, index@, side, c, 0, q) by {
            if q == c {
                assert(chains_view(out@).skip(start)[0] == q);
                assert(c.is_prefix_of(c));
            }
            if covered(chars@, index@, side, c, 0, q) {
                assert(q =~= c);
            }
        }
    }
    let depth = match side {
        Side::Prefix => MAX_PREFIXES,
        Side::Suffix => MAX_SUFFIXES,
    };
    if chain.len() < depth {
        let max_affix_len = match side {
            Side::Prefix => index.max_prefix_len(),
            Side::Suffix => index.max_suffix_len(),
        };
        let room = match side {
            Side::Prefix => if n >= pos + MIN_ROOT_SLOT_LEN { n - (pos + MIN_ROOT_SLOT_LEN) } else { 0 },
            Side::Suffix => if pos >= MIN_ROOT_SLOT_LEN { pos - MIN_ROOT_SLOT_LEN } else { 0 },
        };
        let upper = if max_affix_len < room { max_affix_len } else { room };
        // Only the first suffix stripped is word-final, so only it may be a
        // single character.
        let word_final_suffix = side == Side::Suffix && pos == n;
        let min_len = if word_final_suffix { 1 } else { MIN_AFFIX_LEN };
        let mut l = min_len;
        while l <= upper
            invariant
                chars@.len() <= MAX_WORD_LEN,
                n == chars@.len(),
                valid_chain(chars@, index@, side, c),
                chain@ == c,
                k == c.len(),
                k < max_depth(side),
                pos == chain_pos(n as int, side, c),
                0 <= pos <= n,
                upper <= n,
                min_len >= 1,
                upper == (if max_affix_len < room { max_affix_len } else { room }),
                max_affix_len == (match side { Side::Prefix => index@.max_prefix_len, Side::Suffix => index@.max_suffix_len }),
                room == (match side {
                    Side::Prefix => if n >= pos + MIN_ROOT_SLOT_LEN { n - (pos + MIN_ROOT_SLOT_LEN) } else { 0 },
                    Side::Suffix => if pos >= MIN_ROOT_SLOT_LEN { pos - MIN_ROOT_SLOT_LEN } else { 0 },
                }),
                min_len == (if side == Side::Suffix && pos == n { 1 } else { MIN_AFFIX_LEN }),
                min_len <= l,
                start == old(out)@.len(),
                out@.len() >= start,
                chains_view(out@).take(start) == chains_view(old(out)@),
                chains_view(out@).skip(start).no_duplicates(),
                forall|q: Seq<usize>| #[trigger] chains_view(out@).skip(start).contains(q) <==> covered(chars@, index@, side, c, l as int, q),
            decreases upper + 1 - l,
        {
            let (start_at, end_at) = match side {
                Side::Prefix => (pos, pos + l),
                Side::Suffix => (pos - l, pos),
            };
            let form = crate::text::string_from_chars(&chars.as_slice()[start_at..end_at]);
            let one_char_ok = l != 1 || chars[start_at] == 'y';
            let matches = one_char_ok && match side {
                Side::Prefix => index.is_prefix(form.as_str()),
                Side::Suffix => index.is_suffix(form.as_str()),
            };
            let ghost before = chains_view(out@).skip(start);
            proof {
                assert(chains_view(out@).len() == out@.len());
                assert(before.len() == out@.len() - start);
                assert(step_ok(chars@, index@, side, c, l as int) == matches);
            }
            if matches {
                let mut next = copy_lengths(&chain);
                next.push(l);
                let next_pos = match side {
                    Side::Prefix => end_at,
                    Side::Suffix => start_at,
                };
                proof {
                    lemma_sum_push(c, l);
                    lemma_chain_step(chars@, index@, side, c);
                    assert(valid_chain(chars@, index@, side, c.push(l)));
                }
                let ghost mid_len = out@.len() as int;
                collect_chains(chars, index, side, next, next_pos, out);
                proof {
                    let added = chains_view(out@).skip(mid_len);
                    lemma_chain_step(chars@, index@, side, c);
                    let whole = chains_view(out@);
                    assert(before.len() == mid_len - start);
                    assert(whole.len() == out@.len());
                    assert(added.len() == whole.len() - mid_len);
                    assert(whole.take(mid_len).skip(start) == before);
                    assert forall|i: int| 0 <= i < whole.len() - start implies #[trigger] whole.skip(start)[i] == (before + added)[i] by {
                        if i < before.len() {
                            assert(whole.take(mid_len).skip(start)[i] == whole[start + i]);
                        } else {
                            assert(added[i - before.len()] == whole[mid_len + i - before.len()]);
                        }
                    }
                    assert(whole.skip(start) =~= before + added);
                    assert(chains_view(out@).skip(start) =~= before + added);
                    assert(chains_view(out@).take(start) =~= chains_view(out@).take(mid_len).take(start));
                    assert forall|i: int, j: int| 0 <= i < before.len() && 0 <= j < added.len() implies before[i] != added[j] by {
                        assert(before.contains(before[i]));
                        assert(added.contains(added[j]));
                        assert(c.push(l).is_prefix_of(added[j]));
                    }
                    vstd::seq_lib::lemma_no_dup_in_concat(before, added);
                    assert forall|q: Seq<usize>| #[trigger] chains_view(out@).skip(start).contains(q) <==> covered(chars@, index@, side, c, l + 1, q) by {
                        vstd::seq_lib::lemma_seq_concat_contains_all_elements(before, added, q);
                        if covered(chars@, index@, side, c, l + 1, q) && q.len() > k && q[k] == l {
                            assert(valid_chain(chars@, index@, side, c.push(q[k])));
                            assert(c.push(l).is_prefix_of(q)) by {
                                assert forall|i: int| 0 <= i < c.push(l).len() implies c.push(l)[i] == q[i] by {
                                    if i < k {
                                        assert(c[i] == q[i]);
                                    }
                                }
                            }
                            assert(added.contains(q));
                        }
                        if added.contains(q) {
                            assert(c.push(l).is_prefix_of(q));
                            assert(q.len() > k && q[k] == l);
                        }
                        if before.contains(q) {
                            assert(covered(chars@, index@, side, c, l as int, q));
                        }
                        if covered(chars@, index@, side, c, l + 1, q) && (q.len() == k || q[k] < l) {
                            assert(covered(chars@, index@, side, c, l as int, q));
                            assert(before.contains(q));
                        }
                    }
                }
            } else {
                proof {
                    assert forall|q: Seq<usize>| #[trigger] chains_view(out@).skip(start).contains(q) <==> covered(chars@, index@, side, c, l + 1, q) by {
                        if covered(chars@, index@, side, c, l + 1, q) && q.len() > k && q[k] == l {
                            assert(valid_chain(chars@, index@, side, c.push(q[k])));
                        }
                    }
                }
            }
            l = l + 1;
        }
        proof {
            assert forall|q: Seq<usize>| #[trigger] chains_view(out@).skip(start).contains(q) <==> (valid_chain(chars@, index@, side, q) && c.is_prefix_of(q)) by {
                if valid_chain(chars@, index@, side, q) && c.is_prefix_of(q) && q.len() > k {
                    assert(valid_chain(chars@, index@, side, c.push(q[k])));
                    assert(step_ok(chars@, index@, side, c, q[k] as int));
                }
            }
        }
    } else {
        proof {
            assert forall|q: Seq<usize>| #[trigger] chains_view(out@).skip(start).contains(q) <==> (valid_chain(chars@, index@, side, q) && c.is_prefix_of(q)) by {
                if valid_chain(chars@, index@, side, q) && c.is_prefix_of(q) && q.len() > k {
                    assert(valid_chain(chars@, index@, side, c.push(q[k])));
                }
            }
        }
    }
}

/// Every valid chain of affixes strippable from one end, the empty chain
/// included, each listed once.
fn affix_chains(chars: &Vec<char>, index: &MorphemeIndex, side: Side) -> (r: Vec<Vec<usize>>)
    requires
        chars@.len() <= MAX_WORD_LEN,
    ensures
        lists_extensions(chars@, index@, side, Seq::empty(), chains_view(r@)),
{
    let mut out: Vec<Vec<usize>> = Vec::new();
    let pos = match side {
        Side::Prefix => 0,
        Side::Suffix => chars.len(),
    };
    let empty: Vec<usize> = Vec::new();
    assert(valid_chain(chars@, index@, side, empty@));
    collect_chains(chars, index, side, empty, pos, &mut out);
    assert(chains_view(out@).skip(0) == chains_view(out@));
    out
}

/// The abstract content of a [`Segmentation`].
pub struct SegmentationModel {
    pub segments: Seq<(Seq<char>, MorphemeKind)>,
    pub score: int,
    pub root_rule: Option<OrthoRule>,
}

/// One candidate parse and the score that ranked it.
#[derive(Debug, PartialEq)]
pub struct Segmentation {
    pub segments: Vec<MorphemeRef>,
    pub score: i32,
    /// The spelling rule reversed to reach the root, if any.
    pub root_rule: Option<OrthoRule>,
}

impl View for Segmentation {
    type V = SegmentationModel;

    open spec fn view(&self) -> SegmentationModel {
        SegmentationModel { segments: refs_view(self.segments@), score: self.score as int, root_rule: self.root_rule }
    }
}

impl Clone for Segmentation {
    fn clone(&self) -> (r: Self)
        ensures
            r@ == self@,
    {
        Segmentation { segments: clone_refs(&self.segments), score: self.score, root_rule: self.root_rule }
    }
}

pub open spec fn segs_view(v: Seq<Segmentation>) -> Seq<SegmentationModel> {
    v.map_values(|s: Segmentation| s@)
}

/// The characters left for the root between the two chains.
pub open spec fn root_slot(chars: Seq<char>, pc: Seq<usize>, sc: Seq<usize>) -> Seq<char> {
    chars.subrange(sum(pc), chars.len() - sum(sc))
}

/// The first character of the suffix after the root, if any.
pub open spec fn next_initial(chars: Seq<char>, sc: Seq<usize>) -> Option<char> {
    if sc.len() == 0 {
        None
    } else {
        Some(chars[chars.len() - sum(sc)])
    }
}

/// The reading of the root slot between two chains.
pub open spec fn slot_hit(chars: Seq<char>, idx: IndexModel, pc: Seq<usize>, sc: Seq<usize>) -> Option<
    (Seq<char>, RootMatch, Option<OrthoRule>),
> {
    root_hit(idx, root_slot(chars, pc, sc), next_initial(chars, sc), MIN_ROOT_LEN as nat)
}

/// The prefix segments of chain `pc`, in word order.
pub open spec fn prefix_segments(chars: Seq<char>, idx: IndexModel, pc: Seq<usize>) -> Seq<(Seq<char>, MorphemeKind)> {
    Seq::new(
        pc.len(),
        |i: int| (canonical_of(idx, chars.subrange(sum(pc.take(i)), sum(pc.take(i + 1)))), MorphemeKind::Prefix),
    )
}

/// The suffix segments of chain `sc` (stripped right to left), in word order.
pub open spec fn suffix_segments(chars: Seq<char>, idx: IndexModel, sc: Seq<usize>) -> Seq<(Seq<char>, MorphemeKind)> {
    let n = chars.len() as int;
    Seq::new(
        sc.len(),
        |w: int|
            {
                let i = sc.len() - 1 - w;
                (canonical_of(idx, chars.subrange(n - sum(sc.take(i + 1)), n - sum(sc.take(i)))), MorphemeKind::Suffix)
            },
    )
}

/// Two-character segments are the short ones.
pub open spec fn is_short(l: int) -> bool {
    1 < l <= MIN_AFFIX_LEN
}

pub open spec fn count_short(c: Seq<usize>) -> int
    decreases c.len(),
{
    if c.len() == 0 {
        0
    } else {
        count_short(c.drop_last()) + if is_short(c.last() as int) { 1int } else { 0int }
    }
}

/// The score of the parse with chains `pc` and `sc` and a root read with
/// `quality`.
pub open spec fn score_of(chars: Seq<char>, pc: Seq<usize>, sc: Seq<usize>, quality: RootMatch) -> int {
    let rs = sum(pc);
    let rl = chars.len() - sum(sc) - rs;
    let nseg = pc.len() + 1 + sc.len();
    let short = count_short(pc) + count_short(sc) + if is_short(rl) { 1int } else { 0int };
    SCORE_ROOT_START * rs + SCORE_ROOT_LEN * rl - SCORE_PER_SEGMENT * nseg - SCORE_SHORT_SEGMENT * short
        - SCORE_EXTRA_PREFIX * (if pc.len() > 0 { pc.len() - 1 } else { 0 })
        - (if sc.len() == 0 && rl <= MIN_ROOT_LEN { SCORE_FINAL_SHORT_ROOT as int } else { 0 })
        - (if sc.len() > 0 && sc[0] == 1 { SCORE_ONE_CHAR_SUFFIX as int } else { 0 })
        - (if quality == RootMatch::AffixOnly { SCORE_AFFIX_ONLY_ROOT as int } else { 0 })
}

/// A root only attested as an affix costs a parse 100 points against the
/// same split with an attested root, and nothing else changes.
pub proof fn lemma_affix_only_root_penalty(chars: Seq<char>, pc: Seq<usize>, sc: Seq<usize>)
    ensures
        score_of(chars, pc, sc, RootMatch::Attested) == score_of(chars, pc, sc, RootMatch::AffixOnly) + 100,
{
}

/// The parse with prefix chain `pc` and suffix chain `sc`.
pub open spec fn seg_of(chars: Seq<char>, idx: IndexModel, pc: Seq<usize>, sc: Seq<usize>) -> SegmentationModel {
    let h = slot_hit(chars, idx, pc, sc).unwrap();
    SegmentationModel {
        segments: prefix_segments(chars, idx, pc) + seq![(h.0, MorphemeKind::Root)] + suffix_segments(chars, idx, sc),
        score: score_of(chars, pc, sc, h.1),
        root_rule: h.2,
    }
}

/// Chains `pc` and `sc` leave a root slot the index can read, and the
/// resulting parse scores at least [`SCORE_MIN_ACCEPTABLE`].
pub open spec fn is_candidate(chars: Seq<char>, idx: IndexModel, pc: Seq<usize>, sc: Seq<usize>) -> bool {
    &&& valid_chain(chars, idx, Side::Prefix, pc)
    &&& valid_chain(chars, idx, Side::Suffix, sc)
    &&& sum(pc) < chars.len() - sum(sc)
    &&& chars.len() - sum(sc) - sum(pc) >= MIN_ROOT_SLOT_LEN
    &&& slot_hit(chars, idx, pc, sc) is Some
    &&& seg_of(chars, idx, pc, sc).score >= SCORE_MIN_ACCEPTABLE
}

pub open spec fn ids_of(segs: Seq<(Seq<char>, MorphemeKind)>) -> Seq<Seq<char>> {
    segs.map_values(|p: (Seq<char>, MorphemeKind)| p.0)
}

/// Lexicographic order on id lists.
pub open spec fn strs_lt(a: Seq<Seq<char>>, b: Seq<Seq<char>>) -> bool
    decreases a.len(),
{
    if a.len() == 0 {
        b.len() > 0
    } else if b.len() == 0 {
        false
    } else if str_lt(a[0], b[0]) {
        true
    } else if a[0] == b[0] {
        strs_lt(a.drop_first(), b.drop_first())
    } else {
        false
    }
}

/// Lexicographic order on length lists.
pub open spec fn lens_lt(a: Seq<usize>, b: Seq<usize>) -> bool
    decreases a.len(),
{
    if a.len() == 0 {
        b.len() > 0
    } else if b.len() == 0 {
        false
    } else if a[0] < b[0] {
        true
    } else if a[0] == b[0] {
        lens_lt(a.drop_first(), b.drop_first())
    } else {
        false
    }
}

/// The order chains are discovered in: fewer affixes first, then
/// lexicographically by affix length.
pub open spec fn chain_lt(a: Seq<usize>, b: Seq<usize>) -> bool {
    a.len() < b.len() || (a.len() == b.len() && lens_lt(a, b))
}

/// Whether parse `x` ranks before parse `y`: higher score first, then fewer
/// segments, then the id list in code-point order, then the order the
/// chains were discovered in.
pub open spec fn ranks_before(
    chars: Seq<char>,
    idx: IndexModel,
    x: (Seq<usize>, Seq<usize>),
    y: (Seq<usize>, Seq<usize>),
) -> bool {
    parse_ranks_before(seg_of(chars, idx, x.0, x.1), seg_of(chars, idx, y.0, y.1), x, y)
}

/// [`ranks_before`] for two given parses and their chains.
pub open spec fn parse_ranks_before(
    sx: SegmentationModel,
    sy: SegmentationModel,
    x: (Seq<usize>, Seq<usize>),
    y: (Seq<usize>, Seq<usize>),
) -> bool {
    if sx.score != sy.score {
        sx.score > sy.score
    } else if sx.segments.len() != sy.segments.len() {
        sx.segments.len() < sy.segments.len()
    } else if ids_of(sx.segments) != ids_of(sy.segments) {
        strs_lt(ids_of(sx.segments), ids_of(sy.segments))
    } else if x.0 != y.0 {
        chain_lt(x.0, y.0)
    } else {
        chain_lt(x.1, y.1)
    }
}

/// `ws` lists the best `limit` candidates (all of them if there are fewer),
/// best first.
pub open spec fn ranked(chars: Seq<char>, idx: IndexModel, limit: int, ws: Seq<(Seq<usize>, Seq<usize>)>) -> bool {
    &&& ws.len() <= limit
    &&& forall|i: int| 0 <= i < ws.len() ==> is_candidate(chars, idx, #[trigger] ws[i].0, ws[i].1)
    &&& forall|i: int, j: int| 0 <= i < j < ws.len() ==> ranks_before(chars, idx, #[trigger] ws[i], #[trigger] ws[j])
    &&& forall|pc: Seq<usize>, sc: Seq<usize>| #[trigger] is_candidate(chars, idx, pc, sc) && !ws.contains((pc, sc))
        ==> ws.len() == limit && (ws.len() > 0 ==> ranks_before(chars, idx, ws.last(), (pc, sc)))
}

/// `out` is the best-first list of the best `limit` parses of `chars`.
pub open spec fn ranking(chars: Seq<char>, idx: IndexModel, limit: int, out: Seq<SegmentationModel>) -> bool {
    exists|ws: Seq<(Seq<usize>, Seq<usize>)>|
        ranked(chars, idx, limit, ws) && out == ws.map_values(|w: (Seq<usize>, Seq<usize>)| seg_of(chars, idx, w.0, w.1))
}

/// A chain whose lengths are all small: what every valid chain of a word of
/// at most [`MAX_WORD_LEN`] characters is.
pub open spec fn small_chain(c: Seq<usize>) -> bool {
    c.len() <= 3 && forall|i: int| 0 <= i < c.len() ==> #[trigger] c[i] <= MAX_WORD_LEN
}

proof fn lemma_small_sum(c: Seq<usize>)
    requires
        small_chain(c),
    ensures
        0 <= sum(c) <= c.len() * MAX_WORD_LEN,
    decreases c.len(),
{
    if c.len() > 0 {
        assert(small_chain(c.drop_last()));
        lemma_small_sum(c.drop_last());
    }
}

proof fn lemma_valid_chain_small(chars: Seq<char>, idx: IndexModel, side: Side, c: Seq<usize>)
    requires
        valid_chain(chars, idx, side, c),
        chars.len() <= MAX_WORD_LEN,
    ensures
        small_chain(c),
{
    assert forall|i: int| 0 <= i < c.len() implies #[trigger] c[i] <= MAX_WORD_LEN by {
        assert(step_ok(chars, idx, side, c.take(i), c[i] as int));
        lemma_sum_nonneg(c.take(i));
    }
}

proof fn lemma_take_push(c: Seq<usize>, i: int)
    requires
        0 <= i < c.len(),
    ensures
        c.take(i + 1) == c.take(i).push(c[i]),
        sum(c.take(i + 1)) == sum(c.take(i)) + c[i],
        count_short(c.take(i + 1)) == count_short(c.take(i)) + if is_short(c[i] as int) { 1int } else { 0int },
{
    assert(c.take(i + 1) =~= c.take(i).push(c[i]));
    assert(c.take(i + 1).drop_last() =~= c.take(i));
}

/// The sum of a chain's lengths.
fn chain_sum(c: &Vec<usize>) -> (r: usize)
    requires
        small_chain(c@),
    ensures
        r == sum(c@),
{
    let mut total: usize = 0;
    let mut i: usize = 0;
    while i < c.len()
        invariant
            i <= c@.len(),
            small_chain(c@),
            total == sum(c@.take(i as int)),
            total <= i * MAX_WORD_LEN,
        decreases c@.len() - i,
    {
        proof {
            lemma_take_push(c@, i as int);
        }
        total = total + c[i];
        i = i + 1;
    }
    assert(c@.take(c@.len() as int) == c@);
    total
}

/// How many of a chain's lengths are short.
fn chain_short_count(c: &Vec<usize>) -> (r: i32)
    requires
        small_chain(c@),
    ensures
        r == count_short(c@),
        0 <= r <= 3,
{
    let mut count: i32 = 0;
    let mut i: usize = 0;
    while i < c.len()
        invariant
            i <= c@.len(),
            small_chain(c@),
            count == count_short(c@.take(i as int)),
            0 <= count <= i,
        decreases c@.len() - i,
    {
        proof {
            lemma_take_push(c@, i as int);
        }
        if c[i] > 1 && c[i] <= MIN_AFFIX_LEN {
            count = count + 1;
        }
        i = i + 1;
    }
    assert(c@.take(c@.len() as int) == c@);
    count
}

/// Assembles the parse with chains `pc` and `sc` and root reading `hit`.
fn build(
    chars: &Vec<char>,
    index: &MorphemeIndex,
    pc: &Vec<usize>,
    sc: &Vec<usize>,
    root_start: usize,
    root_end: usize,
    hit: RootHit,
) -> (r: Segmentation)
    requires
        chars@.len() <= MAX_WORD_LEN,
        valid_chain(chars@, index@, Side::Prefix, pc@),
        valid_chain(chars@, index@, Side::Suffix, sc@),
        root_start == sum(pc@),
        root_end == chars@.len() - sum(sc@),
        root_start + MIN_ROOT_SLOT_LEN <= root_end,
        slot_hit(chars@, index@, pc@, sc@) == Some(hit@),
    ensures
        r@ == seg_of(chars@, index@, pc@, sc@),
{
    let ghost cs = chars@;
    let ghost idx = index@;
    let n = chars.len();
    proof {
        lemma_valid_chain_small(cs, idx, Side::Prefix, pc@);
        lemma_valid_chain_small(cs, idx, Side::Suffix, sc@);
    }
    let mut segments: Vec<MorphemeRef> = Vec::new();
    let mut pos: usize = 0;
    let mut i: usize = 0;
    while i < pc.len()
        invariant
            n == cs.len(),
            cs == chars@,
            idx == index@,
            cs.len() <= MAX_WORD_LEN,
            valid_chain(cs, idx, Side::Prefix, pc@),
            i <= pc@.len(),
            pos == sum(pc@.take(i as int)),
            refs_view(segments@) == prefix_segments(cs, idx, pc@.take(i as int)),
        decreases pc@.len() - i,
    {
        let l = pc[i];
        proof {
            assert(step_ok(cs, idx, Side::Prefix, pc@.take(i as int), l as int));
            lemma_take_push(pc@, i as int);
        }
        let form = string_from_chars(&chars.as_slice()[pos..pos + l]);
        let id = index.canonical_id(form.as_str());
        let ghost before = segments@;
        segments.push(MorphemeRef { morpheme_id: id, role: MorphemeKind::Prefix });
        proof {
            let t = pc@.take(i + 1);
            assert forall|j: int| 0 <= j <= i implies #[trigger] t.take(j) == pc@.take(j) by {
                assert(t.take(j) =~= pc@.take(j));
            }
            assert(t.take(i as int + 1) == t);
            assert(refs_view(segments@) =~= refs_view(before).push((id@, MorphemeKind::Prefix)));
            let ps = prefix_segments(cs, idx, t);
            let old_ps = prefix_segments(cs, idx, pc@.take(i as int));
            assert forall|j: int| 0 <= j < i implies ps[j] == old_ps[j] by {
                assert(t.take(j) == pc@.take(j));
                assert(t.take(j + 1) == pc@.take(j + 1));
                assert(pc@.take(i as int).take(j) == pc@.take(j));
                assert(pc@.take(i as int).take(j + 1) == pc@.take(j + 1));
            }
            assert(ps[i as int] == (id@, MorphemeKind::Prefix));
            assert(refs_view(segments@) =~= prefix_segments(cs, idx, t));
        }
        pos = pos + l;
        i = i + 1;
    }
    assert(pc@.take(pc@.len() as int) == pc@);
    let root_rule = hit.rule;
    let quality = hit.quality;
    segments.push(MorphemeRef { morpheme_id: hit.id, role: MorphemeKind::Root });
    let ghost head = prefix_segments(cs, idx, pc@) + seq![(slot_hit(cs, idx, pc@, sc@).unwrap().0, MorphemeKind::Root)];
    assert(refs_view(segments@) =~= head);
    let ghost suf = suffix_segments(cs, idx, sc@);
    let m = sc.len();
    let mut pos: usize = root_end;
    let mut w: usize = 0;
    assert(sc@.take(m as int) == sc@);
    while w < m
        invariant
            n == cs.len(),
            cs == chars@,
            idx == index@,
            cs.len() <= MAX_WORD_LEN,
            valid_chain(cs, idx, Side::Suffix, sc@),
            m == sc@.len(),
            w <= m,
            suf == suffix_segments(cs, idx, sc@),
            pos == n - sum(sc@.take(m - w)),
            refs_view(segments@) == head + suf.take(w as int),
        decreases m - w,
    {
        let i = m - 1 - w;
        let l = sc[i];
        proof {
            assert(step_ok(cs, idx, Side::Suffix, sc@.take(i as int), l as int));
            lemma_take_push(sc@, i as int);
            lemma_sum_nonneg(sc@.take(i as int));
        }
        let form = string_from_chars(&chars.as_slice()[pos..pos + l]);
        let id = index.canonical_id(form.as_str());
        let ghost before = segments@;
        segments.push(MorphemeRef { morpheme_id: id, role: MorphemeKind::Suffix });
        proof {
            assert(refs_view(segments@) =~= refs_view(before).push((id@, MorphemeKind::Suffix)));
            assert(suf[w as int] == (id@, MorphemeKind::Suffix));
            assert(suf.take(w + 1) =~= suf.take(w as int).push(suf[w as int]));
            assert(refs_view(segments@) =~= head + suf.take(w + 1));
        }
        pos = pos + l;
        w = w + 1;
    }
    assert(suf.take(m as int) == suf);
    proof {
        lemma_chain_pos_bounds(cs, idx, Side::Prefix, pc@);
        lemma_chain_pos_bounds(cs, idx, Side::Suffix, sc@);
    }
    let root_len = root_end - root_start;
    let nseg = pc.len() + 1 + sc.len();
    let short = chain_short_count(pc) + chain_short_count(sc) + if root_len > 1 && root_len <= MIN_AFFIX_LEN { 1i32 } else { 0i32 };
    let extra_prefixes = if pc.len() > 0 { pc.len() - 1 } else { 0 };
    let final_short_root = sc.len() == 0 && root_len <= MIN_ROOT_LEN;
    let one_char_suffix = sc.len() > 0 && sc[0] == 1;
    let score = SCORE_ROOT_START * (root_start as i32) + SCORE_ROOT_LEN * (root_len as i32)
        - SCORE_PER_SEGMENT * (nseg as i32) - SCORE_SHORT_SEGMENT * short
        - SCORE_EXTRA_PREFIX * (extra_prefixes as i32)
        - (if final_short_root { SCORE_FINAL_SHORT_ROOT } else { 0 })
        - (if one_char_suffix { SCORE_ONE_CHAR_SUFFIX } else { 0 })
        - (if quality == RootMatch::AffixOnly { SCORE_AFFIX_ONLY_ROOT } else { 0 });
    Segmentation { segments, score, root_rule }
}

proof fn lemma_lens_lt_irreflexive(a: Seq<usize>)
    ensures
        !lens_lt(a, a),
    decreases a.len(),
{
    if a.len() > 0 {
        lemma_lens_lt_irreflexive(a.drop_first());
    }
}

proof fn lemma_lens_lt_total(a: Seq<usize>, b: Seq<usize>)
    requires
        a != b,
    ensures
        lens_lt(a, b) || lens_lt(b, a),
    decreases a.len(),
{
    if a.len() > 0 && b.len() > 0 {
        if a[0] == b[0] {
            if a.drop_first() == b.drop_first() {
                assert(a =~= seq![a[0]] + a.drop_first());
                assert(b =~= seq![b[0]] + b.drop_first());
            }
            lemma_lens_lt_total(a.drop_first(), b.drop_first());
        }
    } else if a.len() == 0 && b.len() == 0 {
        assert(a =~= b);
    }
}

proof fn lemma_lens_lt_asymmetric(a: Seq<usize>, b: Seq<usize>)
    requires
        lens_lt(a, b),
    ensures
        !lens_lt(b, a),
    decreases a.len(),
{
    if a.len() > 0 && b.len() > 0 && a[0] == b[0] {
        lemma_lens_lt_asymmetric(a.drop_first(), b.drop_first());
    }
}

proof fn lemma_lens_lt_transitive(a: Seq<usize>, b: Seq<usize>, c: Seq<usize>)
    requires
        lens_lt(a, b),
        lens_lt(b, c),
    ensures
        lens_lt(a, c),
    decreases a.len(),
{
    if a.len() > 0 && b.len() > 0 && c.len() > 0 && a[0] == b[0] && b[0] == c[0] {
        lemma_lens_lt_transitive(a.drop_first(), b.drop_first(), c.drop_first());
    }
}

proof fn lemma_strs_lt_irreflexive(a: Seq<Seq<char>>)
    ensures
        !strs_lt(a, a),
    decreases a.len(),
{
    crate::index::lemma_str_lt_order();
    if a.len() > 0 {
        lemma_strs_lt_irreflexive(a.drop_first());
    }
}

proof fn lemma_strs_lt_total(a: Seq<Seq<char>>, b: Seq<Seq<char>>)
    requires
        a != b,
    ensures
        strs_lt(a, b) || strs_lt(b, a),
    decreases a.len(),
{
    crate::index::lemma_str_lt_order();
    if a.len() > 0 && b.len() > 0 {
        if a[0] == b[0] {
            if a.drop_first() == b.drop_first() {
                assert(a =~= seq![a[0]] + a.drop_first());
                assert(b =~= seq![b[0]] + b.drop_first());
            }
            lemma_strs_lt_total(a.drop_first(), b.drop_first());
        }
    } else if a.len() == 0 && b.len() == 0 {
        assert(a =~= b);
    }
}

proof fn lemma_strs_lt_asymmetric(a: Seq<Seq<char>>, b: Seq<Seq<char>>)
    requires
        strs_lt(a, b),
    ensures
        !strs_lt(b, a),
    decreases a.len(),
{
    crate::index::lemma_str_lt_order();
    if a.len() > 0 && b.len() > 0 && a[0] == b[0] {
        lemma_strs_lt_asymmetric(a.drop_first(), b.drop_first());
    }
}

proof fn lemma_strs_lt_transitive(a: Seq<Seq<char>>, b: Seq<Seq<char>>, c: Seq<Seq<char>>)
    requires
        strs_lt(a, b),
        strs_lt(b, c),
    ensures
        strs_lt(a, c),
    decreases a.len(),
{
    crate::index::lemma_str_lt_order();
    if a.len() > 0 && b.len() > 0 && c.len() > 0 {
        if a[0] == b[0] && b[0] == c[0] {
            lemma_strs_lt_transitive(a.drop_first(), b.drop_first(), c.drop_first());
        }
    }
}

/// The component orders are strict total orders.
proof fn lemma_component_orders()
    ensures
        forall|a: Seq<usize>| !#[trigger] chain_lt(a, a),
        forall|a: Seq<usize>, b: Seq<usize>| a != b ==> #[trigger] chain_lt(a, b) || chain_lt(b, a),
        forall|a: Seq<usize>, b: Seq<usize>| #[trigger] chain_lt(a, b) ==> !chain_lt(b, a),
        forall|a: Seq<usize>, b: Seq<usize>, c: Seq<usize>| #[trigger] chain_lt(a, b) && #[trigger] chain_lt(b, c) ==> chain_lt(a, c),
        forall|a: Seq<Seq<char>>| !#[trigger] strs_lt(a, a),
        forall|a: Seq<Seq<char>>, b: Seq<Seq<char>>| a != b ==> #[trigger] strs_lt(a, b) || strs_lt(b, a),
        forall|a: Seq<Seq<char>>, b: Seq<Seq<char>>| #[trigger] strs_lt(a, b) ==> !strs_lt(b, a),
        forall|a: Seq<Seq<char>>, b: Seq<Seq<char>>, c: Seq<Seq<char>>| #[trigger] strs_lt(a, b) && #[trigger] strs_lt(b, c) ==> strs_lt(a, c),
{
    assert forall|a: Seq<usize>| !#[trigger] chain_lt(a, a) by {
        lemma_lens_lt_irreflexive(a);
    }
    assert forall|a: Seq<usize>, b: Seq<usize>| a != b implies #[trigger] chain_lt(a, b) || chain_lt(b, a) by {
        if a.len() == b.len() {
            lemma_lens_lt_total(a, b);
        }
    }
    assert forall|a: Seq<usize>, b: Seq<usize>| #[trigger] chain_lt(a, b) implies !chain_lt(b, a) by {
        if a.len() == b.len() {
            lemma_lens_lt_asymmetric(a, b);
        }
    }
    assert forall|a: Seq<usize>, b: Seq<usize>, c: Seq<usize>| #[trigger] chain_lt(a, b) && #[trigger] chain_lt(b, c) implies chain_lt(a, c) by {
        if a.len() == b.len() && b.len() == c.len() {
            lemma_lens_lt_transitive(a, b, c);
        }
    }
    assert forall|a: Seq<Seq<char>>| !#[trigger] strs_lt(a, a) by {
        lemma_strs_lt_irreflexive(a);
    }
    assert forall|a: Seq<Seq<char>>, b: Seq<Seq<char>>| a != b implies #[trigger] strs_lt(a, b) || strs_lt(b, a) by {
        lemma_strs_lt_total(a, b);
    }
    assert forall|a: Seq<Seq<char>>, b: Seq<Seq<char>>| #[trigger] strs_lt(a, b) implies !strs_lt(b, a) by {
        lemma_strs_lt_asymmetric(a, b);
    }
    assert forall|a: Seq<Seq<char>>, b: Seq<Seq<char>>, c: Seq<Seq<char>>| #[trigger] strs_lt(a, b) && #[trigger] strs_lt(b, c) implies strs_lt(a, c) by {
        lemma_strs_lt_transitive(a, b, c);
    }
}

/// The ranking order is a strict total order on distinct parses.
pub proof fn lemma_ranking_order(chars: Seq<char>, idx: IndexModel)
    ensures
        forall|x: (Seq<usize>, Seq<usize>)| !#[trigger] ranks_before(chars, idx, x, x),
        forall|x: (Seq<usize>, Seq<usize>), y: (Seq<usize>, Seq<usize>)| x != y ==> #[trigger] ranks_before(chars, idx, x, y)
            || ranks_before(chars, idx, y, x),
        forall|x: (Seq<usize>, Seq<usize>), y: (Seq<usize>, Seq<usize>)| #[trigger] ranks_before(chars, idx, x, y)
            ==> !ranks_before(chars, idx, y, x),
        forall|x: (Seq<usize>, Seq<usize>), y: (Seq<usize>, Seq<usize>), z: (Seq<usize>, Seq<usize>)|
            #[trigger] ranks_before(chars, idx, x, y) && #[trigger] ranks_before(chars, idx, y, z) ==> ranks_before(chars, idx, x, z),
{
    lemma_component_orders();
    assert forall|x: (Seq<usize>, Seq<usize>), y: (Seq<usize>, Seq<usize>)| x != y implies #[trigger] ranks_before(chars, idx, x, y)
        || ranks_before(chars, idx, y, x) by {
        if x.0 == y.0 {
            assert(x.1 != y.1);
        }
    }
}

/// Two lists that both rank the best `limit` parses of a word are the same
/// list: ranking leaves nothing to chance.
pub proof fn lemma_ranked_unique(
    chars: Seq<char>,
    idx: IndexModel,
    limit: int,
    a: Seq<(Seq<usize>, Seq<usize>)>,
    b: Seq<(Seq<usize>, Seq<usize>)>,
)
    requires
        ranked(chars, idx, limit, a),
        ranked(chars, idx, limit, b),
    ensures
        a == b,
{
    lemma_ranking_order(chars, idx);
    lemma_ranked_prefix_agree(chars, idx, limit, a, b);
    lemma_ranked_prefix_agree(chars, idx, limit, b, a);
    if a.len() < b.len() {
        let z = b[a.len() as int];
        if a.contains(z) {
            let j = choose|j: int| 0 <= j < a.len() && a[j] == z;
            assert(b[j] == z);
            assert(ranks_before(chars, idx, b[j], b[a.len() as int]));
        }
        assert(is_candidate(chars, idx, z.0, z.1));
    } else if b.len() < a.len() {
        let z = a[b.len() as int];
        if b.contains(z) {
            let j = choose|j: int| 0 <= j < b.len() && b[j] == z;
            assert(a[j] == z);
            assert(ranks_before(chars, idx, a[j], a[b.len() as int]));
        }
        assert(is_candidate(chars, idx, z.0, z.1));
    }
    assert(a =~= b);
}

/// Where both lists have an entry, the entries agree.
proof fn lemma_ranked_prefix_agree(
    chars: Seq<char>,
    idx: IndexModel,
    limit: int,
    a: Seq<(Seq<usize>, Seq<usize>)>,
    b: Seq<(Seq<usize>, Seq<usize>)>,
)
    requires
        ranked(chars, idx, limit, a),
        ranked(chars, idx, limit, b),
    ensures
        forall|i: int| 0 <= i < a.len() && i < b.len() ==> a[i] == b[i],
{
    lemma_ranking_order(chars, idx);
    assert forall|i: int| 0 <= i < a.len() && i < b.len() implies a[i] == b[i] by {
        lemma_ranked_agree_at(chars, idx, limit, a, b, i);
    }
}

proof fn lemma_ranked_agree_at(
    chars: Seq<char>,
    idx: IndexModel,
    limit: int,
    a: Seq<(Seq<usize>, Seq<usize>)>,
    b: Seq<(Seq<usize>, Seq<usize>)>,
    i: int,
)
    requires
        ranked(chars, idx, limit, a),
        ranked(chars, idx, limit, b),
        0 <= i < a.len(),
        i < b.len(),
    ensures
        a[i] == b[i],
    decreases i,
{
    lemma_ranking_order(chars, idx);
    if i > 0 {
        lemma_ranked_agree_at(chars, idx, limit, a, b, i - 1);
    }
    assert forall|j: int| 0 <= j < i implies a[j] == b[j] by {
        lemma_ranked_agree_at(chars, idx, limit, a, b, j);
    }
    let x = a[i];
    let y = b[i];
    if x != y {
        if ranks_before(chars, idx, x, y) {
            lemma_ranked_misses(chars, idx, limit, a, b, i);
        } else {
            assert(ranks_before(chars, idx, y, x));
            assert forall|j: int| 0 <= j < i implies b[j] == a[j] by {
                lemma_ranked_agree_at(chars, idx, limit, a, b, j);
            }
            lemma_ranked_misses(chars, idx, limit, b, a, i);
        }
    }
}

/// If `a` and `b` agree before `i`, `a[i]` does not rank before `b[i]`.
proof fn lemma_ranked_misses(
    chars: Seq<char>,
    idx: IndexModel,
    limit: int,
    a: Seq<(Seq<usize>, Seq<usize>)>,
    b: Seq<(Seq<usize>, Seq<usize>)>,
    i: int,
)
    requires
        ranked(chars, idx, limit, a),
        ranked(chars, idx, limit, b),
        0 <= i < a.len(),
        i < b.len(),
        forall|j: int| 0 <= j < i ==> a[j] == b[j],
    ensures
        !ranks_before(chars, idx, a[i], b[i]),
{
    lemma_ranking_order(chars, idx);
    let x = a[i];
    if ranks_before(chars, idx, a[i], b[i]) {
        assert(is_candidate(chars, idx, x.0, x.1));
        if b.contains(x) {
            let j = choose|j: int| 0 <= j < b.len() && b[j] == x;
            if j < i {
                assert(a[j] == x);
                assert(ranks_before(chars, idx, a[j], a[i]));
            } else if j > i {
                assert(ranks_before(chars, idx, b[i], b[j]));
            }
        } else {
            let last = b.len() - 1;
            assert(ranks_before(chars, idx, b.last(), x));
            if last > i {
                assert(ranks_before(chars, idx, b[i], b[last]));
            }
        }
    }
}

proof fn lemma_first_attested_is_root(idx: IndexModel, d: Seq<(Seq<char>, OrthoRule)>)
    ensures
        first_attested(idx, d) matches Some(p) ==> idx.roots.contains(p.0),
    decreases d.len(),
{
    if d.len() > 0 && !idx.roots.contains(d[0].0) {
        lemma_first_attested_is_root(idx, d.drop_first());
    }
}

proof fn lemma_first_affix_only_is_affix(idx: IndexModel, d: Seq<(Seq<char>, OrthoRule)>)
    ensures
        first_affix_only(idx, d) matches Some(p) ==> idx.prefixes.contains(p.0) || idx.suffixes.contains(p.0),
    decreases d.len(),
{
    if d.len() > 0 && listed_match(idx, d[0].0) != Some(RootMatch::AffixOnly) {
        lemma_first_affix_only_is_affix(idx, d.drop_first());
    }
}

proof fn lemma_root_hit_resolves(idx: IndexModel, ms: Seq<MorphemeModel>, f: Seq<char>, next: Option<char>, min: nat)
    requires
        built_from(idx, ms),
        ids_settled(ms),
        root_hit(idx, f, next, min) is Some,
    ensures
        idx.by_id.contains_key((root_hit(idx, f, next, min)->0).0),
{
    let d = underlying_forms(f, next);
    lemma_first_attested_is_root(idx, d);
    lemma_first_affix_only_is_affix(idx, d);
    let h = root_hit(idx, f, next, min)->0;
    let literal = if f.len() >= min { listed_match(idx, f) } else { None };
    if literal == Some(RootMatch::Attested) {
        lemma_canonical_resolves(idx, ms, f);
    } else if first_attested(idx, d) is Some {
        lemma_canonical_resolves(idx, ms, (first_attested(idx, d)->0).0);
    } else if literal is Some {
        lemma_canonical_resolves(idx, ms, f);
    } else {
        lemma_canonical_resolves(idx, ms, (first_affix_only(idx, d)->0).0);
    }
}

proof fn lemma_sum_take_step(c: Seq<usize>, i: int)
    requires
        0 <= i < c.len(),
    ensures
        sum(c.take(i + 1)) == sum(c.take(i)) + c[i],
{
    assert(c.take(i + 1).drop_last() =~= c.take(i));
    assert(c.take(i + 1).last() == c[i]);
}

proof fn lemma_candidate_ids_resolve(
    chars: Seq<char>,
    idx: IndexModel,
    ms: Seq<MorphemeModel>,
    pc: Seq<usize>,
    sc: Seq<usize>,
)
    requires
        built_from(idx, ms),
        ids_settled(ms),
        is_candidate(chars, idx, pc, sc),
    ensures
        forall|j: int| 0 <= j < seg_of(chars, idx, pc, sc).segments.len() ==> idx.by_id.contains_key(
            #[trigger] seg_of(chars, idx, pc, sc).segments[j].0,
        ),
{
    let segs = seg_of(chars, idx, pc, sc).segments;
    let ps = prefix_segments(chars, idx, pc);
    let ss = suffix_segments(chars, idx, sc);
    let n = chars.len() as int;
    lemma_root_hit_resolves(idx, ms, root_slot(chars, pc, sc), next_initial(chars, sc), MIN_ROOT_LEN as nat);
    assert forall|j: int| 0 <= j < segs.len() implies idx.by_id.contains_key(#[trigger] segs[j].0) by {
        if j < ps.len() {
            assert(segs[j] == ps[j]);
            assert(step_ok(chars, idx, Side::Prefix, pc.take(j), pc[j] as int));
            lemma_sum_take_step(pc, j);
            lemma_canonical_resolves(idx, ms, chars.subrange(sum(pc.take(j)), sum(pc.take(j + 1))));
        } else if j == ps.len() {
        } else {
            let w = j - ps.len() - 1;
            assert(segs[j] == ss[w]);
            let i = sc.len() - 1 - w;
            assert(step_ok(chars, idx, Side::Suffix, sc.take(i), sc[i] as int));
            lemma_sum_take_step(sc, i);
            lemma_canonical_resolves(idx, ms, chars.subrange(n - sum(sc.take(i + 1)), n - sum(sc.take(i))));
        }
    }
}

/// Whatever the word spells, every morpheme id a segmentation reports is
/// one the morpheme table holds (given morphemes filed under their own,
/// already lowercase, ids).
pub proof fn lemma_reported_ids_resolve(
    word: Seq<char>,
    idx: IndexModel,
    ms: Seq<MorphemeModel>,
    limit: int,
    out: Seq<SegmentationModel>,
)
    requires
        built_from(idx, ms),
        ids_settled(ms),
        ranked_segmentations(word, idx, limit, out),
    ensures
        forall|k: int, j: int|
            0 <= k < out.len() && 0 <= j < out[k].segments.len() ==> idx.by_id.contains_key(#[trigger] out[k].segments[j].0),
{
    let cs = lowercase(word);
    if !(cs.len() == 0 || cs.len() > MAX_WORD_LEN || limit == 0) {
        let ws = choose|ws: Seq<(Seq<usize>, Seq<usize>)>|
            ranked(cs, idx, limit, ws) && out == ws.map_values(|w: (Seq<usize>, Seq<usize>)| seg_of(cs, idx, w.0, w.1));
        assert forall|k: int, j: int| 0 <= k < out.len() && 0 <= j < out[k].segments.len() implies idx.by_id.contains_key(
            #[trigger] out[k].segments[j].0,
        ) by {
            assert(is_candidate(cs, idx, ws[k].0, ws[k].1));
            lemma_candidate_ids_resolve(cs, idx, ms, ws[k].0, ws[k].1);
            assert(out[k] == seg_of(cs, idx, ws[k].0, ws[k].1));
        }
    }
}

fn lengths_lt(a: &Vec<usize>, b: &Vec<usize>) -> (r: bool)
    ensures
        r == lens_lt(a@, b@),
{
    let mut i: usize = 0;
    assert(a@.skip(0) == a@);
    assert(b@.skip(0) == b@);
    while i < a.len() && i < b.len()
        invariant
            i <= a@.len(),
            i <= b@.len(),
            lens_lt(a@, b@) == lens_lt(a@.skip(i as int), b@.skip(i as int)),
        decreases a@.len() - i,
    {
        assert(a@.skip(i as int)[0] == a@[i as int]);
        assert(b@.skip(i as int)[0] == b@[i as int]);
        assert(a@.skip(i as int).drop_first() == a@.skip(i + 1));
        assert(b@.skip(i as int).drop_first() == b@.skip(i + 1));
        if a[i] < b[i] {
            return true;
        }
        if a[i] != b[i] {
            return false;
        }
        i = i + 1;
    }
    i < b.len()
}

fn lengths_eq(a: &Vec<usize>, b: &Vec<usize>) -> (r: bool)
    ensures
        r == (a@ == b@),
{
    if a.len() != b.len() {
        return false;
    }
    let mut i: usize = 0;
    while i < a.len()
        invariant
            a@.len() == b@.len(),
            i <= a@.len(),
            a@.take(i as int) == b@.take(i as int),
        decreases a@.len() - i,
    {
        if a[i] != b[i] {
            assert(a@[i as int] != b@[i as int]);
            return false;
        }
        assert(a@.take(i + 1) == a@.take(i as int).push(a@[i as int]));
        assert(b@.take(i + 1) == b@.take(i as int).push(b@[i as int]));
        i = i + 1;
    }
    assert(a@ == a@.take(a@.len() as int));
    assert(b@ == b@.take(b@.len() as int));
    true
}

fn chain_before(a: &Vec<usize>, b: &Vec<usize>) -> (r: bool)
    ensures
        r == chain_lt(a@, b@),
{
    a.len() < b.len() || (a.len() == b.len() && lengths_lt(a, b))
}

/// Whether the ids of two segment lists are equal (`eq`) or the first sorts
/// before the second (`!eq`).
fn compare_ids(a: &Vec<MorphemeRef>, b: &Vec<MorphemeRef>, eq: bool) -> (r: bool)
    ensures
        eq ==> r == (ids_of(refs_view(a@)) == ids_of(refs_view(b@))),
        !eq ==> r == strs_lt(ids_of(refs_view(a@)), ids_of(refs_view(b@))),
{
    let ghost x = ids_of(refs_view(a@));
    let ghost y = ids_of(refs_view(b@));
    let mut i: usize = 0;
    assert(x.skip(0) == x);
    assert(y.skip(0) == y);
    assert(x.take(0) == y.take(0));
    while i < a.len() && i < b.len()
        invariant
            i <= a@.len(),
            i <= b@.len(),
            x == ids_of(refs_view(a@)),
            y == ids_of(refs_view(b@)),
            x.len() == a@.len(),
            y.len() == b@.len(),
            x.take(i as int) == y.take(i as int),
            strs_lt(x, y) == strs_lt(x.skip(i as int), y.skip(i as int)),
        decreases a@.len() - i,
    {
        proof {
            crate::index::lemma_str_lt_order();
        }
        let ca = str_chars(a[i].morpheme_id.as_str());
        let cb = str_chars(b[i].morpheme_id.as_str());
        assert(ca@ == x[i as int]);
        assert(cb@ == y[i as int]);
        assert(x.skip(i as int)[0] == x[i as int]);
        assert(y.skip(i as int)[0] == y[i as int]);
        assert(x.skip(i as int).drop_first() == x.skip(i + 1));
        assert(y.skip(i as int).drop_first() == y.skip(i + 1));
        if !chars_eq(ca.as_slice(), cb.as_slice()) {
            if eq {
                assert(x[i as int] != y[i as int]);
                return false;
            }
            return chars_lt(ca.as_slice(), cb.as_slice());
        }
        assert(x.take(i + 1) == x.take(i as int).push(x[i as int]));
        assert(y.take(i + 1) == y.take(i as int).push(y[i as int]));
        i = i + 1;
    }
    if eq {
        if a.len() == b.len() {
            assert(x == x.take(x.len() as int));
            assert(y == y.take(y.len() as int));
        }
        a.len() == b.len()
    } else {
        i < b.len()
    }
}

/// [`parse_ranks_before`] on executable parses and chains.
fn parse_before(
    sx: &Segmentation,
    sy: &Segmentation,
    xp: &Vec<usize>,
    xs: &Vec<usize>,
    yp: &Vec<usize>,
    ys: &Vec<usize>,
) -> (r: bool)
    ensures
        r == parse_ranks_before(sx@, sy@, (xp@, xs@), (yp@, ys@)),
{
    if sx.score != sy.score {
        sx.score > sy.score
    } else if sx.segments.len() != sy.segments.len() {
        sx.segments.len() < sy.segments.len()
    } else if !compare_ids(&sx.segments, &sy.segments, true) {
        compare_ids(&sx.segments, &sy.segments, false)
    } else if !lengths_eq(xp, yp) {
        chain_before(xp, yp)
    } else {
        chain_before(xs, ys)
    }
}

/// The candidates gathered so far: every candidate pairing a prefix chain
/// before `a` (or at `a` with a suffix chain before `b`), each once.
spec fn gathered(
    cs: Seq<char>,
    idx: IndexModel,
    pcs: Seq<Seq<usize>>,
    scs: Seq<Seq<usize>>,
    cands: Seq<SegmentationModel>,
    origin: Seq<(usize, usize)>,
    ws: Seq<(Seq<usize>, Seq<usize>)>,
    a: int,
    b: int,
) -> bool {
    &&& cands.len() == ws.len()
    &&& origin.len() == ws.len()
    &&& forall|i: int| 0 <= i < ws.len() ==> {
        &&& origin[i].0 < pcs.len()
        &&& origin[i].1 < scs.len()
        &&& #[trigger] ws[i] == (pcs[origin[i].0 as int], scs[origin[i].1 as int])
        &&& (origin[i].0 < a || (origin[i].0 == a && origin[i].1 < b))
        &&& is_candidate(cs, idx, ws[i].0, ws[i].1)
        &&& cands[i] == seg_of(cs, idx, ws[i].0, ws[i].1)
    }
    &&& forall|i: int, j: int| 0 <= i < j < ws.len() ==> #[trigger] ws[i] != #[trigger] ws[j]
    &&& forall|a2: int, b2: int| 0 <= a2 < pcs.len() && 0 <= b2 < scs.len() && (a2 < a || (a2 == a && b2 < b))
        && #[trigger] is_candidate(cs, idx, pcs[a2], scs[b2]) ==> ws.contains((pcs[a2], scs[b2]))
}

/// The best `limit` parses of `chars` (all of them if there are fewer),
/// best first; ties break on segment count, then id order, then the order
/// the affix chains were discovered in, so the result is reproducible.
pub fn segment_chars(chars: &Vec<char>, index: &MorphemeIndex, limit: usize) -> (r: Vec<Segmentation>)
    requires
        chars@.len() <= MAX_WORD_LEN,
    ensures
        ranking(chars@, index@, limit as int, segs_view(r@)),
{
    let ghost cs = chars@;
    let ghost idx = index@;
    let n = chars.len();
    let prefix_chains = affix_chains(chars, index, Side::Prefix);
    let suffix_chains = affix_chains(chars, index, Side::Suffix);
    let ghost pcs = chains_view(prefix_chains@);
    let ghost scs = chains_view(suffix_chains@);
    let mut cands: Vec<Segmentation> = Vec::new();
    let mut origin: Vec<(usize, usize)> = Vec::new();
    let ghost mut ws: Seq<(Seq<usize>, Seq<usize>)> = Seq::empty();
    let mut a: usize = 0;
    while a < prefix_chains.len()
        invariant
            cs == chars@,
            idx == index@,
            n == cs.len(),
            cs.len() <= MAX_WORD_LEN,
            pcs == chains_view(prefix_chains@),
            scs == chains_view(suffix_chains@),
            lists_extensions(cs, idx, Side::Prefix, Seq::empty(), pcs),
            lists_extensions(cs, idx, Side::Suffix, Seq::empty(), scs),
            a <= pcs.len(),
            gathered(cs, idx, pcs, scs, segs_view(cands@), origin@, ws, a as int, 0),
        decreases pcs.len() - a,
    {
        let mut b: usize = 0;
        while b < suffix_chains.len()
            invariant
                cs == chars@,
                idx == index@,
                n == cs.len(),
                cs.len() <= MAX_WORD_LEN,
                pcs == chains_view(prefix_chains@),
                scs == chains_view(suffix_chains@),
                lists_extensions(cs, idx, Side::Prefix, Seq::empty(), pcs),
                lists_extensions(cs, idx, Side::Suffix, Seq::empty(), scs),
                a < pcs.len(),
                b <= scs.len(),
                gathered(cs, idx, pcs, scs, segs_view(cands@), origin@, ws, a as int, b as int),
            decreases scs.len() - b,
        {
            let pc = &prefix_chains[a];
            let sc = &suffix_chains[b];
            proof {
                assert(pcs[a as int] == pc@);
                assert(scs[b as int] == sc@);
                assert(pcs.contains(pc@));
                assert(scs.contains(sc@));
                lemma_chain_pos_bounds(cs, idx, Side::Prefix, pc@);
                lemma_chain_pos_bounds(cs, idx, Side::Suffix, sc@);
                lemma_valid_chain_small(cs, idx, Side::Prefix, pc@);
                lemma_valid_chain_small(cs, idx, Side::Suffix, sc@);
            }
            let ghost before_ws = ws;
            let root_start = chain_sum(pc);
            let root_end = n - chain_sum(sc);
            let mut added = false;
            if root_end > root_start && root_end - root_start >= MIN_ROOT_SLOT_LEN {
                let root = string_from_chars(&chars.as_slice()[root_start..root_end]);
                let next = if sc.len() == 0 { None } else { Some(chars[root_end]) };
                match index.match_root(root.as_str(), next, MIN_ROOT_LEN) {
                    Some(hit) => {
                        let seg = build(chars, index, pc, sc, root_start, root_end, hit);
                        if seg.score >= SCORE_MIN_ACCEPTABLE {
                            cands.push(seg);
                            origin.push((a, b));
                            proof {
                                ws = ws.push((pc@, sc@));
                            }
                            added = true;
                        }
                    },
                    None => {},
                }
            }
            proof {
                let g = segs_view(cands@);
                assert(added ==> is_candidate(cs, idx, pc@, sc@));
                assert(!added ==> !is_candidate(cs, idx, pc@, sc@));
                assert forall|i: int, j: int| 0 <= i < j < ws.len() implies #[trigger] ws[i] != #[trigger] ws[j] by {
                    if added && j == ws.len() - 1 {
                        let o = origin@[i];
                        assert(ws[i] == before_ws[i]);
                        if o.0 < a {
                            assert(pcs[o.0 as int] != pcs[a as int]);
                        } else {
                            assert(scs[o.1 as int] != scs[b as int]);
                        }
                    } else {
                        assert(ws[i] == before_ws[i]);
                        assert(ws[j] == before_ws[j]);
                    }
                }
                assert forall|a2: int, b2: int| 0 <= a2 < pcs.len() && 0 <= b2 < scs.len() && (a2 < a || (a2 == a && b2 < b + 1))
                    && #[trigger] is_candidate(cs, idx, pcs[a2], scs[b2]) implies ws.contains((pcs[a2], scs[b2])) by {
                    if a2 == a && b2 == b {
                        assert(ws[ws.len() - 1] == (pcs[a2], scs[b2]));
                    } else {
                        let k = choose|k: int| 0 <= k < before_ws.len() && before_ws[k] == (pcs[a2], scs[b2]);
                        assert(ws[k] == before_ws[k]);
                    }
                }
                assert(gathered(cs, idx, pcs, scs, g, origin@, ws, a as int, b + 1));
            }
            b = b + 1;
        }
        proof {
            assert(gathered(cs, idx, pcs, scs, segs_view(cands@), origin@, ws, a + 1, 0));
        }
        a = a + 1;
    }

    // Rank: repeatedly take the best candidate not yet taken.
    let m = cands.len();
    let mut chosen: Vec<bool> = vec![false; m];
    let mut out: Vec<Segmentation> = Vec::new();
    let ghost mut picked: Seq<int> = Seq::empty();
    let mut exhausted = false;
    proof {
        lemma_ranking_order(cs, idx);
    }
    while out.len() < limit && !exhausted
        invariant
            cs == chars@,
            idx == index@,
            pcs == chains_view(prefix_chains@),
            scs == chains_view(suffix_chains@),
            lists_extensions(cs, idx, Side::Prefix, Seq::empty(), pcs),
            lists_extensions(cs, idx, Side::Suffix, Seq::empty(), scs),
            gathered(cs, idx, pcs, scs, segs_view(cands@), origin@, ws, pcs.len() as int, 0),
            m == cands@.len(),
            chosen@.len() == m,
            out@.len() == picked.len(),
            out@.len() <= limit,
            forall|r: int| 0 <= r < picked.len() ==> 0 <= #[trigger] picked[r] < m,
            forall|k: int| 0 <= k < m ==> (chosen@[k] <==> picked.contains(k)),
            forall|r: int| 0 <= r < picked.len() ==> #[trigger] out@[r]@ == cands@[picked[r]]@,
            forall|r1: int, r2: int| 0 <= r1 < r2 < picked.len() ==> ranks_before(cs, idx, #[trigger] ws[picked[r1]], #[trigger] ws[picked[r2]]),
            forall|r: int, k: int| 0 <= r < picked.len() && 0 <= k < m && !chosen@[k] ==> ranks_before(cs, idx, #[trigger] ws[picked[r]], #[trigger] ws[k]),
            exhausted ==> forall|k: int| 0 <= k < m ==> chosen@[k],
        decreases limit - out@.len(), if exhausted { 0int } else { 1int },
    {
        proof {
            lemma_ranking_order(cs, idx);
        }
        let mut best: usize = m;
        let mut i: usize = 0;
        while i < m
            invariant
                cs == chars@,
                idx == index@,
                pcs == chains_view(prefix_chains@),
                scs == chains_view(suffix_chains@),
                gathered(cs, idx, pcs, scs, segs_view(cands@), origin@, ws, pcs.len() as int, 0),
                m == cands@.len(),
                chosen@.len() == m,
                i <= m,
                best == m || (best < i && !chosen@[best as int]),
                best == m ==> forall|j: int| 0 <= j < i ==> chosen@[j],
                best < m ==> forall|j: int| 0 <= j < i && !chosen@[j] && j != best ==> ranks_before(cs, idx, ws[best as int], #[trigger] ws[j]),
            decreases m - i,
        {
            proof {
                lemma_ranking_order(cs, idx);
            }
            if !chosen[i] {
                let take = if best == m {
                    true
                } else {
                    let oi = origin[i];
                    let ob = origin[best];
                    proof {
                        assert(ws[i as int] == (pcs[oi.0 as int], scs[oi.1 as int]));
                        assert(ws[best as int] == (pcs[ob.0 as int], scs[ob.1 as int]));
                        assert(segs_view(cands@)[i as int] == cands@[i as int]@);
                        assert(segs_view(cands@)[best as int] == cands@[best as int]@);
                    }
                    parse_before(&cands[i], &cands[best], &prefix_chains[oi.0], &suffix_chains[oi.1],
                        &prefix_chains[ob.0], &suffix_chains[ob.1])
                };
                if take {
                    proof {
                        if best < m {
                            assert forall|j: int| 0 <= j < i + 1 && !chosen@[j] && j != i implies ranks_before(cs, idx, ws[i as int], #[trigger] ws[j]) by {
                                if j != best {
                                    assert(ranks_before(cs, idx, ws[best as int], ws[j]));
                                }
                            }
                        }
                    }
                    best = i;
                } else {
                    proof {
                        assert(ws[i as int] != ws[best as int]);
                        assert(ranks_before(cs, idx, ws[best as int], ws[i as int]));
                    }
                }
            }
            i = i + 1;
        }
        if best == m {
            exhausted = true;
        } else {
            let ghost before_chosen = chosen@;
            chosen.set(best, true);
            let seg = cands[best].clone();
            out.push(seg);
            proof {
                let old_picked = picked;
                picked = picked.push(best as int);
                assert forall|k: int| 0 <= k < m implies (chosen@[k] <==> picked.contains(k)) by {
                    if k == best {
                        assert(picked[picked.len() - 1] == k);
                    } else {
                        assert(before_chosen[k] == chosen@[k]);
                        if old_picked.contains(k) {
                            let r = choose|r: int| 0 <= r < old_picked.len() && old_picked[r] == k;
                            assert(picked[r] == k);
                        }
                        if picked.contains(k) {
                            let r = choose|r: int| 0 <= r < picked.len() && picked[r] == k;
                            assert(r < old_picked.len());
                            assert(old_picked[r] == k);
                        }
                    }
                }
                assert forall|r: int| 0 <= r < picked.len() implies #[trigger] out@[r]@ == cands@[picked[r]]@ by {
                    if r < old_picked.len() {
                        assert(picked[r] == old_picked[r]);
                    }
                }
                assert forall|r1: int, r2: int| 0 <= r1 < r2 < picked.len() implies ranks_before(cs, idx, #[trigger] ws[picked[r1]], #[trigger] ws[picked[r2]]) by {
                    assert(picked[r1] == old_picked[r1]);
                    if r2 < old_picked.len() {
                        assert(picked[r2] == old_picked[r2]);
                    } else {
                        assert(!before_chosen[best as int]);
                    }
                }
                assert forall|r: int, k: int| 0 <= r < picked.len() && 0 <= k < m && !chosen@[k] implies ranks_before(cs, idx, #[trigger] ws[picked[r]], #[trigger] ws[k]) by {
                    assert(k != best);
                    assert(!before_chosen[k]);
                    if r < old_picked.len() {
                        assert(picked[r] == old_picked[r]);
                    } else {
                        assert(picked[r] == best);
                        assert(ws[k] != ws[best as int]);
                    }
                }
            }
        }
    }
    proof {
        let wsel = picked.map_values(|k: int| ws[k]);
        let g = segs_view(cands@);
        assert forall|i: int| 0 <= i < wsel.len() implies is_candidate(cs, idx, #[trigger] wsel[i].0, wsel[i].1) by {
            assert(wsel[i] == ws[picked[i]]);
        }
        assert forall|i: int, j: int| 0 <= i < j < wsel.len() implies ranks_before(cs, idx, #[trigger] wsel[i], #[trigger] wsel[j]) by {
            assert(wsel[i] == ws[picked[i]]);
            assert(wsel[j] == ws[picked[j]]);
        }
        assert forall|pc: Seq<usize>, sc: Seq<usize>| #[trigger] is_candidate(cs, idx, pc, sc) && !wsel.contains((pc, sc))
            implies wsel.len() == limit && (wsel.len() > 0 ==> ranks_before(cs, idx, wsel.last(), (pc, sc))) by {
            assert(pcs.contains(pc));
            assert(scs.contains(sc));
            let a2 = choose|a2: int| 0 <= a2 < pcs.len() && pcs[a2] == pc;
            let b2 = choose|b2: int| 0 <= b2 < scs.len() && scs[b2] == sc;
            assert(is_candidate(cs, idx, pcs[a2], scs[b2]));
            assert(ws.contains((pc, sc)));
            let k = choose|k: int| 0 <= k < ws.len() && ws[k] == (pc, sc);
            if chosen@[k] {
                assert(picked.contains(k));
                let r = choose|r: int| 0 <= r < picked.len() && picked[r] == k;
                assert(wsel[r] == ws[picked[r]]);
                assert(wsel[r] == (pc, sc));
                assert(wsel.contains((pc, sc)));
            }
            assert(!chosen@[k]);
            assert(!exhausted);
            if wsel.len() > 0 {
                assert(wsel.last() == ws[picked[picked.len() - 1]]);
            }
        }
        assert(ranked(cs, idx, limit as int, wsel));
        assert(segs_view(out@) =~= wsel.map_values(|w: (Seq<usize>, Seq<usize>)| seg_of(cs, idx, w.0, w.1)));
    }
    out
}

/// `out` is what [`segment_ranked`] gives for `word` with `limit`: nothing
/// for an empty or over-long word or a zero limit, else the best `limit`
/// parses of the lowercased word.
pub open spec fn ranked_segmentations(word: Seq<char>, idx: IndexModel, limit: int, out: Seq<SegmentationModel>) -> bool {
    let cs = lowercase(word);
    if cs.len() == 0 || cs.len() > MAX_WORD_LEN || limit == 0 {
        out.len() == 0
    } else {
        ranking(cs, idx, limit, out)
    }
}

/// What [`segment_ranked`] returns depends only on the word, the index and
/// the limit: two results for the same inputs are the same list.
pub proof fn lemma_segment_ranked_deterministic(
    word: Seq<char>,
    idx: IndexModel,
    limit: int,
    a: Seq<SegmentationModel>,
    b: Seq<SegmentationModel>,
)
    requires
        ranked_segmentations(word, idx, limit, a),
        ranked_segmentations(word, idx, limit, b),
    ensures
        a == b,
{
    let cs = lowercase(word);
    if !(cs.len() == 0 || cs.len() > MAX_WORD_LEN || limit == 0) {
        let wa = choose|ws: Seq<(Seq<usize>, Seq<usize>)>|
            ranked(cs, idx, limit, ws) && a == ws.map_values(|w: (Seq<usize>, Seq<usize>)| seg_of(cs, idx, w.0, w.1));
        let wb = choose|ws: Seq<(Seq<usize>, Seq<usize>)>|
            ranked(cs, idx, limit, ws) && b == ws.map_values(|w: (Seq<usize>, Seq<usize>)| seg_of(cs, idx, w.0, w.1));
        lemma_ranked_unique(cs, idx, limit, wa, wb);
    } else {
        assert(a =~= b);
    }
}

/// The best `k` parses are the first `k` of the best `m`, for `k <= m`.
proof fn lemma_ranked_prefix(
    chars: Seq<char>,
    idx: IndexModel,
    k: int,
    m: int,
    a: Seq<(Seq<usize>, Seq<usize>)>,
    b: Seq<(Seq<usize>, Seq<usize>)>,
)
    requires
        0 <= k <= m,
        ranked(chars, idx, k, a),
        ranked(chars, idx, m, b),
    ensures
        a == b.take(if k < b.len() { k } else { b.len() as int }),
{
    lemma_ranking_order(chars, idx);
    let j = if k < b.len() { k } else { b.len() as int };
    let t = b.take(j);
    assert forall|i: int| 0 <= i < t.len() implies is_candidate(chars, idx, #[trigger] t[i].0, t[i].1) by {
        assert(t[i] == b[i]);
    }
    assert forall|i: int, l: int| 0 <= i < l < t.len() implies ranks_before(chars, idx, #[trigger] t[i], #[trigger] t[l]) by {
        assert(t[i] == b[i] && t[l] == b[l]);
    }
    assert forall|pc: Seq<usize>, sc: Seq<usize>| #[trigger] is_candidate(chars, idx, pc, sc) && !t.contains((pc, sc)) implies t.len()
        == k && (t.len() > 0 ==> ranks_before(chars, idx, t.last(), (pc, sc))) by {
        let x = (pc, sc);
        if b.contains(x) {
            let i = choose|i: int| 0 <= i < b.len() && b[i] == x;
            if i < j {
                assert(t[i] == x);
            }
            assert(j == k);
            if k > 0 {
                assert(t.last() == b[k - 1]);
                assert(ranks_before(chars, idx, b[k - 1], b[i]));
            }
        } else {
            assert(b.len() == m);
            assert(j == k);
            if k > 0 {
                assert(t.last() == b[k - 1]);
                if k - 1 < b.len() - 1 {
                    assert(ranks_before(chars, idx, b[k - 1], b.last()));
                }
            }
        }
    }
    assert(ranked(chars, idx, k, t));
    lemma_ranked_unique(chars, idx, k, a, t);
}

/// Asking for fewer parses gives the first of the parses a larger limit
/// gives: the best `k` are a prefix of the best `m` whenever `k <= m`.
pub proof fn lemma_segment_ranked_prefix(
    word: Seq<char>,
    idx: IndexModel,
    k: int,
    m: int,
    a: Seq<SegmentationModel>,
    b: Seq<SegmentationModel>,
)
    requires
        0 <= k <= m,
        ranked_segmentations(word, idx, k, a),
        ranked_segmentations(word, idx, m, b),
    ensures
        a == b.take(if k < b.len() { k } else { b.len() as int }),
{
    let cs = lowercase(word);
    if cs.len() == 0 || cs.len() > MAX_WORD_LEN || k == 0 {
        assert(a =~= b.take(if k < b.len() { k } else { b.len() as int }));
    } else {
        let wa = choose|ws: Seq<(Seq<usize>, Seq<usize>)>|
            ranked(cs, idx, k, ws) && a == ws.map_values(|w: (Seq<usize>, Seq<usize>)| seg_of(cs, idx, w.0, w.1));
        let wb = choose|ws: Seq<(Seq<usize>, Seq<usize>)>|
            ranked(cs, idx, m, ws) && b == ws.map_values(|w: (Seq<usize>, Seq<usize>)| seg_of(cs, idx, w.0, w.1));
        lemma_ranked_prefix(cs, idx, k, m, wa, wb);
        let j = if k < b.len() { k } else { b.len() as int };
        assert(a =~= b.take(j));
    }
}

/// Segmenting a word and segmenting its lowercase form give the same
/// parses, wherever lowercasing the lowercase form again changes nothing
/// (all ASCII text, for one).
pub proof fn lemma_segment_ranked_lowercase_first(
    word: Seq<char>,
    idx: IndexModel,
    limit: int,
    a: Seq<SegmentationModel>,
    b: Seq<SegmentationModel>,
)
    requires
        lowercase(lowercase(word)) == lowercase(word),
        ranked_segmentations(lowercase(word), idx, limit, a),
        ranked_segmentations(word, idx, limit, b),
    ensures
        a == b,
{
    lemma_segment_ranked_deterministic(word, idx, limit, a, b);
}

/// Up to `limit` segmentations of `word`, best first.
pub fn segment_ranked(word: &str, index: &MorphemeIndex, limit: usize) -> (r: Vec<Segmentation>)
    ensures
        ranked_segmentations(word@, index@, limit as int, segs_view(r@)),
{
    let lower = to_lowercase(word);
    let chars = str_chars(lower.as_str());
    if chars.len() == 0 || chars.len() > MAX_WORD_LEN || limit == 0 {
        return Vec::new();
    }
    segment_chars(&chars, index, limit)
}

/// `segs` is the segments of the best parse of `word`, or `None` when it
/// has none.
pub open spec fn segmented(word: Seq<char>, idx: IndexModel, segs: Option<Seq<(Seq<char>, MorphemeKind)>>) -> bool {
    exists|out: Seq<SegmentationModel>| #[trigger] ranked_segmentations(word, idx, 1, out) && match segs {
        Some(s) => out.len() > 0 && s == out[0].segments,
        None => out.len() == 0,
    }
}

pub open spec fn opt_refs_view(r: Option<Vec<MorphemeRef>>) -> Option<Seq<(Seq<char>, MorphemeKind)>> {
    match r {
        Some(v) => Some(refs_view(v@)),
        None => None,
    }
}

/// Best-scoring segmentation of `word`, or `None` if no parse exists.
pub fn segment(word: &str, index: &MorphemeIndex) -> (r: Option<Vec<MorphemeRef>>)
    ensures
        segmented(word@, index@, opt_refs_view(r)),
{
    let mut ranked = segment_ranked(word, index, 1);
    let ghost out = segs_view(ranked@);
    if ranked.len() == 0 {
        return None;
    }
    let best = ranked.swap_remove(0);
    assert(best@ == out[0]);
    let r = Some(best.segments);
    assert(ranked_segmentations(word@, index@, 1, out));
    r
}

} // verus!
