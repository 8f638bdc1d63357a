//! Multi-pattern matching with leftmost-longest resolution: the
//! mathematical model, its laws, and the trusted automaton calls.

use vstd::prelude::*;

verus! {

/// Pattern `j` (non-empty) occurs in `text` at position `pos`.
pub open spec fn match_at(pats: Seq<Seq<u8>>, text: Seq<u8>, j: int, pos: int) -> bool {
    &&& 0 <= j < pats.len()
    &&& pats[j].len() > 0
    &&& 0 <= pos
    &&& pos + pats[j].len() <= text.len()
    &&& text.subrange(pos, pos + pats[j].len() as int) == pats[j]
}

/// The winning pattern index at `pos` among indices `j` and above:
/// the longest match, and among equal-length matches the one with the
/// lowest index (the one registered first).
pub open spec fn best_from(pats: Seq<Seq<u8>>, text: Seq<u8>, pos: int, j: int) -> Option<int>
    decreases pats.len() - j,
    when 0 <= j
{
    if j >= pats.len() {
        None
    } else {
        let rest = best_from(pats, text, pos, j + 1);
        if match_at(pats, text, j, pos) {
            match rest {
                Option::None => Some(j),
                Option::Some(k) => if pats[k].len() > pats[j].len() {
                    Some(k)
                } else {
                    Some(j)
                },
            }
        } else {
            rest
        }
    }
}

/// The winning pattern index at `pos`, if any pattern matches there.
pub open spec fn best_at(pats: Seq<Seq<u8>>, text: Seq<u8>, pos: int) -> Option<int> {
    best_from(pats, text, pos, 0)
}

/// What `best_from` finds: a real match, no longer match anywhere at
/// `pos`, and no equal-length match with a lower index.
pub proof fn lemma_best_from_props(pats: Seq<Seq<u8>>, text: Seq<u8>, pos: int, j: int)
    requires
        0 <= j,
    ensures
        match best_from(pats, text, pos, j) {
            Option::None => forall|k: int| j <= k < pats.len() ==> !match_at(pats, text, k, pos),
            Option::Some(c) => {
                &&& j <= c < pats.len()
                &&& match_at(pats, text, c, pos)
                &&& forall|k: int|
                    j <= k < pats.len() && match_at(pats, text, k, pos) ==> pats[k].len()
                        <= pats[c].len()
                &&& forall|k: int|
                    j <= k < pats.len() && match_at(pats, text, k, pos) && pats[k].len()
                        == pats[c].len() ==> c <= k
            },
        },
    decreases pats.len() - j,
{
    if j < pats.len() {
        lemma_best_from_props(pats, text, pos, j + 1);
    }
}

/// Law: the longest wins. If the matcher reports winner `c` at a
/// position, no pattern matching at that position is longer than `c`.
pub proof fn lemma_leftmost_longest(pats: Seq<Seq<u8>>, text: Seq<u8>, pos: int, k: int)
    requires
        match_at(pats, text, k, pos),
    ensures
        best_at(pats, text, pos) is Some,
        pats[best_at(pats, text, pos).unwrap()].len() >= pats[k].len(),
{
    lemma_best_from_props(pats, text, pos, 0);
}

/// Law: priority by registration order. Among equal-length candidates
/// at one position, the pattern registered first (the lowest pattern
/// index) wins.
pub proof fn lemma_registration_priority(pats: Seq<Seq<u8>>, text: Seq<u8>, pos: int, k: int)
    requires
        match_at(pats, text, k, pos),
        best_at(pats, text, pos) is Some,
        pats[k].len() == pats[best_at(pats, text, pos).unwrap()].len(),
    ensures
        best_at(pats, text, pos).unwrap() <= k,
{
    lemma_best_from_props(pats, text, pos, 0);
}

/// The ordered, non-overlapping match list over `text` from position
/// `pos` on, under leftmost-longest resolution: at each position the
/// winning pattern (if any) is reported as `(pattern index, start,
/// end)` and scanning resumes at its end; otherwise scanning moves one
/// position right.
pub open spec fn ll_matches(pats: Seq<Seq<u8>>, text: Seq<u8>, pos: int) -> Seq<(int, int, int)>
    decreases text.len() - pos,
    when 0 <= pos
    via ll_matches_decreases
{
    if pos >= text.len() {
        Seq::empty()
    } else {
        match best_at(pats, text, pos) {
            Option::Some(j) => seq![(j, pos, pos + pats[j].len() as int)] + ll_matches(
                pats,
                text,
                pos + pats[j].len() as int,
            ),
            Option::None => ll_matches(pats, text, pos + 1),
        }
    }
}

#[via_fn]
proof fn ll_matches_decreases(pats: Seq<Seq<u8>>, text: Seq<u8>, pos: int) {
    if pos < text.len() {
        if best_at(pats, text, pos) is Some {
            lemma_best_from_props(pats, text, pos, 0);
        }
    }
}

/// Every reported match is a real occurrence of its pattern, matches
/// come in strictly increasing positions, and they do not overlap.
pub proof fn lemma_ll_matches_sound(pats: Seq<Seq<u8>>, text: Seq<u8>, pos: int)
    requires
        0 <= pos,
    ensures
        ({
            let ms = ll_matches(pats, text, pos);
            &&& forall|i: int|
                0 <= i < ms.len() ==> match_at(pats, text, (#[trigger] ms[i]).0, ms[i].1)
                    && ms[i].2 == ms[i].1 + pats[ms[i].0].len() && pos <= ms[i].1 < ms[i].2
                    <= text.len()
            &&& forall|i: int| 0 < i < ms.len() ==> (#[trigger] ms[i]).1 >= ms[i - 1].2
        }),
    decreases text.len() - pos,
{
    let ms = ll_matches(pats, text, pos);
    if pos < text.len() {
        match best_at(pats, text, pos) {
            Option::Some(j) => {
                lemma_best_from_props(pats, text, pos, 0);
                let next = pos + pats[j].len() as int;
                lemma_ll_matches_sound(pats, text, next);
                let rest = ll_matches(pats, text, next);
                assert forall|i: int|
                    0 <= i < ms.len() implies match_at(pats, text, (#[trigger] ms[i]).0, ms[i].1)
                    && ms[i].2 == ms[i].1 + pats[ms[i].0].len() && pos <= ms[i].1 < ms[i].2
                    <= text.len() by {
                    if i > 0 {
                        assert(ms[i] == rest[i - 1]);
                    }
                }
                assert forall|i: int| 0 < i < ms.len() implies (#[trigger] ms[i]).1 >= ms[i
                    - 1].2 by {
                    assert(ms[i] == rest[i - 1]);
                    if i > 1 {
                        assert(ms[i - 1] == rest[i - 2]);
                    }
                }
            },
            Option::None => {
                lemma_ll_matches_sound(pats, text, pos + 1);
                let rest = ll_matches(pats, text, pos + 1);
                assert forall|i: int|
                    0 <= i < ms.len() implies match_at(pats, text, (#[trigger] ms[i]).0, ms[i].1)
                    && ms[i].2 == ms[i].1 + pats[ms[i].0].len() && pos <= ms[i].1 < ms[i].2
                    <= text.len() by {
                    assert(ms[i] == rest[i]);
                }
            },
        }
    }
}

} // verus!

verus! {

/// Declares `aho_corasick::AhoCorasick` so that automatons can stand
/// in fields and signatures; the value is opaque here.
#[verifier::external_type_specification]
#[verifier::external_body]
pub struct ExAhoCorasick(aho_corasick::AhoCorasick);

/// The pattern list a leftmost-longest automaton was built from.
pub uninterp spec fn automaton_patterns(ac: aho_corasick::AhoCorasick) -> Seq<Seq<u8>>;

/// Whether automaton construction succeeds on this pattern list: it
/// fails only on machine limits (pattern-id or state-id overflow), a
/// function of the patterns alone.
pub uninterp spec fn ac_build_ok(pats: Seq<Seq<u8>>) -> bool;

/// Relies on `aho_corasick::AhoCorasickBuilder::build` with
/// `MatchKind::LeftmostLongest`: on success the automaton searches for
/// exactly the given patterns, in the given order; failure is a machine
/// limit, decided by the pattern list alone.
#[verifier::external_body]
pub(crate) fn build_automaton(patterns: &Vec<Vec<u8>>) -> (r: Option<aho_corasick::AhoCorasick>)
    ensures
        r is Some <==> ac_build_ok(patterns.deep_view()),
        r is Some ==> automaton_patterns(r.unwrap()) == patterns.deep_view(),
{
    aho_corasick::AhoCorasickBuilder::new().match_kind(
        aho_corasick::MatchKind::LeftmostLongest,
    ).build(patterns.iter()).ok()
}

/// Relies on `aho_corasick::AhoCorasick::find_iter`: under
/// leftmost-longest semantics it reports the non-overlapping matches
/// scanning left to right, at each position the longest candidate, and
/// among equal-length candidates (duplicate patterns) the pattern that
/// was given first — exactly [`ll_matches`]. Each item is `(pattern
/// index, start, end)` in byte offsets. An empty pattern would match at
/// every position, outside this model: the automaton must hold none.
#[verifier::external_body]
pub(crate) fn find_automaton_matches(ac: &aho_corasick::AhoCorasick, text: &Vec<u8>) -> (r: Vec<(usize, usize, usize)>)
    requires
        forall|i: int|
            0 <= i < automaton_patterns(*ac).len() ==> (#[trigger] automaton_patterns(
                *ac,
            )[i]).len() > 0,
    ensures
        r@.len() == ll_matches(automaton_patterns(*ac), text@, 0).len(),
        forall|i: int|
            0 <= i < r@.len() ==> ((#[trigger] r@[i]).0 as int, r@[i].1 as int, r@[i].2 as int)
                == ll_matches(automaton_patterns(*ac), text@, 0)[i],
{
    let mut out = Vec::new();
    for m in ac.find_iter(text.as_slice()) {
        out.push((m.pattern().as_usize(), m.start(), m.end()));
    }
    out
}

} // verus!
