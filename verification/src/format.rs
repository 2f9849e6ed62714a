//! Plain-text rendering of the three query results, as the command line
//! prints them.

use vstd::prelude::*;

use crate::db::{AnalyzerDb, RootInfo};
use crate::decomposition::{DecompositionModel, WordDecomposition};
use crate::index::IndexModel;
use crate::morpheme::{strings_view, Morpheme, MorphemeKind, MorphemeModel};
use crate::text::{owned, push_str, seq_join};

verus! {

/// The heading a segment role is printed under.
pub open spec fn role_label(k: MorphemeKind) -> Seq<char> {
    match k {
        MorphemeKind::Prefix => "Prefix"@,
        MorphemeKind::Root => "Root"@,
        MorphemeKind::Suffix => "Suffix"@,
    }
}

/// A morpheme's meanings joined by `", "`, or a placeholder when it has
/// none.
pub open spec fn meanings_text(meanings: Seq<Seq<char>>) -> Seq<char> {
    if meanings.len() == 0 {
        "(no recorded meaning)"@
    } else {
        seq_join(meanings, ", "@)
    }
}

/// One block per segment filling slot `kind` whose morpheme is known, in
/// segment order.
pub open spec fn role_blocks(idx: IndexModel, segs: Seq<(Seq<char>, MorphemeKind)>, kind: MorphemeKind) -> Seq<char>
    decreases segs.len(),
{
    if segs.len() == 0 {
        Seq::empty()
    } else {
        role_blocks(idx, segs.drop_last(), kind) + if segs.last().1 == kind && idx.by_id.contains_key(segs.last().0) {
            let m = idx.by_id[segs.last().0];
            "\n"@ + role_label(kind) + ":\n  "@ + m.form + " = "@ + meanings_text(m.meanings) + "\n"@
        } else {
            Seq::empty()
        }
    }
}

/// The block a morpheme is printed as under heading `kind`.
pub open spec fn morpheme_block(kind: MorphemeKind, m: MorphemeModel) -> Seq<char> {
    "\n"@ + role_label(kind) + ":\n  "@ + m.form + " = "@ + meanings_text(m.meanings) + "\n"@
}

/// The segments filling slot `kind` whose morpheme the index knows, in
/// segment order.
pub open spec fn known_in_slot(idx: IndexModel, segs: Seq<(Seq<char>, MorphemeKind)>, kind: MorphemeKind) -> Seq<
    (Seq<char>, MorphemeKind),
> {
    segs.filter(fills_known(idx, kind))
}

/// Whether a segment fills slot `kind` with a morpheme the index knows.
pub open spec fn fills_known(idx: IndexModel, kind: MorphemeKind) -> spec_fn((Seq<char>, MorphemeKind)) -> bool {
    |s: (Seq<char>, MorphemeKind)| s.1 == kind && idx.by_id.contains_key(s.0)
}

/// The block a segment's morpheme is printed as under heading `kind`.
pub open spec fn block_of(idx: IndexModel, kind: MorphemeKind) -> spec_fn((Seq<char>, MorphemeKind)) -> Seq<char> {
    |s: (Seq<char>, MorphemeKind)| morpheme_block(kind, idx.by_id[s.0])
}

/// The blocks printed for slot `kind` are one block per segment filling that
/// slot whose morpheme is known, in segment order, and nothing else: every
/// such segment is printed, however many share the slot.
pub proof fn lemma_role_blocks_every_segment(idx: IndexModel, segs: Seq<(Seq<char>, MorphemeKind)>, kind: MorphemeKind)
    ensures
        role_blocks(idx, segs, kind) == known_in_slot(idx, segs, kind).map_values(block_of(idx, kind)).flatten(),
    decreases segs.len(),
{
    let f = block_of(idx, kind);
    let pred = fills_known(idx, kind);
    if segs.len() == 0 {
        reveal(Seq::filter);
        assert(known_in_slot(idx, segs, kind).map_values(f) =~= Seq::<Seq<char>>::empty());
        assert(Seq::<Seq<char>>::empty().flatten() =~= Seq::<char>::empty());
    } else {
        let init = segs.drop_last();
        let last = segs.last();
        lemma_role_blocks_every_segment(idx, init, kind);
        assert(init.push(last) =~= segs);
        init.lemma_filter_push(last, pred);
        let k0 = known_in_slot(idx, init, kind);
        if pred(last) {
            assert(known_in_slot(idx, segs, kind) == k0.push(last));
            assert(k0.push(last).map_values(f) =~= k0.map_values(f).push(f(last)));
            k0.map_values(f).lemma_flatten_push(f(last));
            assert(role_blocks(idx, segs, kind) == role_blocks(idx, init, kind) + f(last));
        } else {
            assert(known_in_slot(idx, segs, kind) == k0);
            assert(role_blocks(idx, segs, kind) =~= role_blocks(idx, init, kind));
        }
    }
}

/// The analysis of a word as printed: a heading with its confidence, the
/// prefixes, roots and suffixes in that order, then the evidence.
pub open spec fn analysis_text(idx: IndexModel, d: DecompositionModel, confidence: Seq<char>) -> Seq<char> {
    "Word: "@ + d.word + "  (confidence "@ + confidence + ")\n"@ + role_blocks(idx, d.segments, MorphemeKind::Prefix)
        + role_blocks(idx, d.segments, MorphemeKind::Root) + role_blocks(idx, d.segments, MorphemeKind::Suffix)
        + "\nEvidence: "@ + d.provenance.evidence + "\n"@
}

fn role_label_of(k: MorphemeKind) -> (r: &'static str)
    ensures
        r@ == role_label(k),
{
    match k {
        MorphemeKind::Prefix => "Prefix",
        MorphemeKind::Root => "Root",
        MorphemeKind::Suffix => "Suffix",
    }
}

/// Appends `parts` joined by `sep` to `out`.
fn push_joined(out: &mut String, parts: &Vec<String>, sep: &str)
    ensures
        final(out)@ == old(out)@ + seq_join(strings_view(parts@), sep@),
{
    let ghost start = out@;
    let ghost ps = strings_view(parts@);
    let mut i: usize = 0;
    while i < parts.len()
        invariant
            i <= parts@.len(),
            ps == strings_view(parts@),
            out@ == start + seq_join(ps.take(i as int), sep@),
        decreases parts@.len() - i,
    {
        let ghost prev = ps.take(i as int);
        if i > 0 {
            push_str(out, sep);
        }
        push_str(out, parts[i].as_str());
        proof {
            let t = ps.take(i + 1);
            assert(t.drop_last() =~= prev);
            assert(t.last() == ps[i as int]);
            if i == 0 {
                assert(t.len() == 1);
                assert(seq_join(prev, sep@) =~= Seq::empty());
            }
            assert(out@ =~= start + seq_join(t, sep@));
        }
        i = i + 1;
    }
    assert(ps.take(ps.len() as int) =~= ps);
}

/// Appends a morpheme's meanings line.
fn push_meanings(out: &mut String, m: &Morpheme)
    ensures
        final(out)@ == old(out)@ + meanings_text(m@.meanings),
{
    if m.meanings.len() == 0 {
        push_str(out, "(no recorded meaning)");
    } else {
        push_joined(out, &m.meanings, ", ");
    }
}

/// Appends the blocks for the segments filling slot `kind`.
fn push_role_blocks(out: &mut String, db: &AnalyzerDb, d: &WordDecomposition, kind: MorphemeKind)
    ensures
        final(out)@ == old(out)@ + role_blocks(db@.index, d@.segments, kind),
{
    let ghost start = out@;
    let ghost idx = db@.index;
    let ghost segs = d@.segments;
    let mut i: usize = 0;
    while i < d.segments.len()
        invariant
            i <= d.segments@.len(),
            idx == db@.index,
            segs == d@.segments,
            out@ == start + role_blocks(idx, segs.take(i as int), kind),
        decreases d.segments@.len() - i,
    {
        let seg = &d.segments[i];
        let ghost before = out@;
        proof {
            let t = segs.take(i + 1);
            assert(t.drop_last() =~= segs.take(i as int));
            assert(t.last() == segs[i as int]);
            assert(segs[i as int] == seg@);
        }
        if seg.role == kind {
            match db.get_morpheme(&seg.morpheme_id) {
                Some(m) => {
                    push_str(out, "\n");
                    push_str(out, role_label_of(kind));
                    push_str(out, ":\n  ");
                    push_str(out, m.form.as_str());
                    push_str(out, " = ");
                    push_meanings(out, m);
                    push_str(out, "\n");
                    proof {
                        let mm = idx.by_id[seg@.0];
                        assert(out@ =~= before + ("\n"@ + role_label(kind) + ":\n  "@ + mm.form + " = "@ + meanings_text(mm.meanings) + "\n"@));
                    }
                },
                None => {},
            }
        }
        proof {
            assert(out@ =~= start + role_blocks(idx, segs.take(i + 1), kind));
        }
        i = i + 1;
    }
    assert(segs.take(segs.len() as int) =~= segs);
}

/// The analysis of a word as the command line prints it. `confidence` is
/// the decomposition's confidence already written out (two decimals).
pub fn format_analysis(db: &AnalyzerDb, decomposition: &WordDecomposition, confidence: &str) -> (r: String)
    ensures
        r@ == analysis_text(db@.index, decomposition@, confidence@),
{
    let mut out = owned("Word: ");
    push_str(&mut out, decomposition.word.as_str());
    push_str(&mut out, "  (confidence ");
    push_str(&mut out, confidence);
    push_str(&mut out, ")\n");
    push_role_blocks(&mut out, db, decomposition, MorphemeKind::Prefix);
    push_role_blocks(&mut out, db, decomposition, MorphemeKind::Root);
    push_role_blocks(&mut out, db, decomposition, MorphemeKind::Suffix);
    push_str(&mut out, "\nEvidence: ");
    push_str(&mut out, decomposition.provenance.evidence().as_str());
    push_str(&mut out, "\n");
    assert(out@ =~= analysis_text(db@.index, decomposition@, confidence@));
    out
}

/// Each item on a line of its own, after `indent`.
pub open spec fn lines(items: Seq<Seq<char>>, indent: Seq<char>) -> Seq<char>
    decreases items.len(),
{
    if items.len() == 0 {
        Seq::empty()
    } else {
        lines(items.drop_last(), indent) + indent + items.last() + "\n"@
    }
}

/// A root lookup as printed: the text asked for, the root's meanings, then
/// the related words (or a note that there are none).
pub open spec fn root_text(text: Seq<char>, meanings: Seq<Seq<char>>, related: Seq<Seq<char>>) -> Seq<char> {
    text + "\n\nMeaning:\n"@ + lines(meanings, "  "@) + "\nRelated words:\n\n"@ + if related.len() == 0 {
        "  (none in this pass's dataset)\n"@
    } else {
        lines(related, Seq::empty())
    }
}

pub open spec fn strs_view(v: Seq<&str>) -> Seq<Seq<char>> {
    v.map_values(|s: &str| s@)
}

/// A root lookup as the command line prints it.
pub fn format_root(text: &str, info: &RootInfo<'_>) -> (r: String)
    ensures
        r@ == root_text(text@, info.morpheme@.meanings, strs_view(info.related_words@)),
{
    let mut out = owned(text);
    push_str(&mut out, "\n\nMeaning:\n");
    let ghost ms = info.morpheme@.meanings;
    let ghost head = out@;
    let mut i: usize = 0;
    while i < info.morpheme.meanings.len()
        invariant
            i <= info.morpheme.meanings@.len(),
            ms == strings_view(info.morpheme.meanings@),
            out@ == head + lines(ms.take(i as int), "  "@),
        decreases info.morpheme.meanings@.len() - i,
    {
        push_str(&mut out, "  ");
        push_str(&mut out, info.morpheme.meanings[i].as_str());
        push_str(&mut out, "\n");
        proof {
            let t = ms.take(i + 1);
            assert(t.drop_last() =~= ms.take(i as int));
            assert(t.last() == ms[i as int]);
            assert(out@ =~= head + lines(t, "  "@));
        }
        i = i + 1;
    }
    assert(ms.take(ms.len() as int) =~= ms);
    push_str(&mut out, "\nRelated words:\n\n");
    let ghost ws = strs_view(info.related_words@);
    let ghost mid = out@;
    if info.related_words.len() == 0 {
        push_str(&mut out, "  (none in this pass's dataset)\n");
    } else {
        let mut j: usize = 0;
        while j < info.related_words.len()
            invariant
                j <= info.related_words@.len(),
                ws == strs_view(info.related_words@),
                out@ == mid + lines(ws.take(j as int), Seq::empty()),
            decreases info.related_words@.len() - j,
        {
            push_str(&mut out, info.related_words[j]);
            push_str(&mut out, "\n");
            proof {
                let t = ws.take(j + 1);
                assert(t.drop_last() =~= ws.take(j as int));
                assert(t.last() == ws[j as int]);
                assert(out@ =~= mid + lines(t, Seq::empty()));
            }
            j = j + 1;
        }
        assert(ws.take(ws.len() as int) =~= ws);
    }
    out
}

/// The words of a family as tree branches: every word on a `├── ` line but
/// the last, which is on a `└── ` line.
pub open spec fn branches(words: Seq<Seq<char>>) -> Seq<char>
    decreases words.len(),
{
    if words.len() == 0 {
        Seq::empty()
    } else if words.len() == 1 {
        "└── "@ + words[0] + "\n"@
    } else {
        "├── "@ + words[0] + "\n"@ + branches(words.drop_first())
    }
}

/// A family lookup as printed: the text asked for, then one branch per
/// word (or a note that there are none).
pub open spec fn family_text(text: Seq<char>, words: Seq<Seq<char>>) -> Seq<char> {
    text + "\n"@ + if words.len() == 0 {
        "  (no known words for this root in this pass's dataset)\n"@
    } else {
        branches(words)
    }
}

pub open spec fn family_words(v: Seq<&WordDecomposition>) -> Seq<Seq<char>> {
    v.map_values(|d: &WordDecomposition| d.word@)
}

proof fn lemma_branches_split(words: Seq<Seq<char>>, i: int)
    requires
        0 <= i < words.len(),
    ensures
        branches(words) == branches_upto(words, i) + branches(words.skip(i)),
    decreases i,
{
    if i > 0 {
        lemma_branches_split(words, i - 1);
        assert(words.skip(i - 1).drop_first() =~= words.skip(i));
        assert(words.skip(i - 1)[0] == words[i - 1]);
        assert(words.skip(i - 1).len() > 1);
    } else {
        assert(words.skip(0) =~= words);
    }
}

/// The `├── ` lines of the first `i` words.
pub open spec fn branches_upto(words: Seq<Seq<char>>, i: int) -> Seq<char>
    decreases i,
{
    if i <= 0 {
        Seq::empty()
    } else {
        branches_upto(words, i - 1) + "├── "@ + words[i - 1] + "\n"@
    }
}

/// A family lookup as the command line prints it.
pub fn format_family(text: &str, words: &[&WordDecomposition]) -> (r: String)
    ensures
        r@ == family_text(text@, family_words(words@)),
{
    let mut out = owned(text);
    push_str(&mut out, "\n");
    let ghost ws = family_words(words@);
    let ghost head = out@;
    if words.len() == 0 {
        push_str(&mut out, "  (no known words for this root in this pass's dataset)\n");
        return out;
    }
    let mut i: usize = 0;
    while i < words.len()
        invariant
            i <= words@.len(),
            words@.len() > 0,
            ws == family_words(words@),
            out@ == head + if i < words@.len() {
                branches_upto(ws, i as int)
            } else {
                branches_upto(ws, words@.len() - 1) + "└── "@ + ws.last() + "\n"@
            },
        decreases words@.len() - i,
    {
        let d = words[i];
        assert(d.word@ == ws[i as int]);
        if i + 1 == words.len() {
            push_str(&mut out, "└── ");
        } else {
            push_str(&mut out, "├── ");
        }
        push_str(&mut out, d.word.as_str());
        push_str(&mut out, "\n");
        i = i + 1;
    }
    proof {
        let n = ws.len() as int;
        lemma_branches_split(ws, n - 1);
        assert(ws.skip(n - 1) =~= seq![ws[n - 1]]);
    }
    out
}

} // verus!
