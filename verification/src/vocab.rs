//! The added-vocabulary extension: the token table, the two
//! leftmost-longest automatons over literal and normalized content, and
//! the text-segmentation engine with boundary and whitespace-absorption
//! rules.

use vstd::prelude::*;

use crate::encoding::copy_range;
use crate::matcher::ac_build_ok;
use crate::matcher::automaton_patterns;
use crate::matcher::build_automaton;
use crate::matcher::find_automaton_matches;
use crate::matcher::ll_matches;
use crate::stages::Normalizer;
use crate::token::TokenExtension;
use crate::token::TokenExtensionID;

verus! {

/// Whether the text begins with a word character.
pub uninterp spec fn seq_starts_with_word(s: Seq<u8>) -> bool;

/// Whether the text ends with a word character.
pub uninterp spec fn seq_ends_with_word(s: Seq<u8>) -> bool;

/// The start of the trailing whitespace run of the text (its length
/// when it ends with none).
pub uninterp spec fn trailing_space_start(s: Seq<u8>) -> int;

/// The length of the leading whitespace run of the text.
pub uninterp spec fn leading_space_len(s: Seq<u8>) -> int;

/// Relies on regex `^\w` over UTF-8 bytes: whether the text begins
/// with a word character.
#[verifier::external_body]
fn starts_with_word(s: &Vec<u8>) -> (r: bool)
    ensures
        r == seq_starts_with_word(s@),
{
    regex::bytes::Regex::new(r"^\w").unwrap().is_match(s)
}

/// Relies on regex `\w$` over UTF-8 bytes: whether the text ends with
/// a word character.
#[verifier::external_body]
fn ends_with_word(s: &Vec<u8>) -> (r: bool)
    ensures
        r == seq_ends_with_word(s@),
{
    regex::bytes::Regex::new(r"\w$").unwrap().is_match(s)
}

/// Relies on regex `\s*$`: its match starts where the trailing
/// whitespace run starts, and lies within the text.
#[verifier::external_body]
fn space_leftmost_at_end(s: &Vec<u8>) -> (r: usize)
    ensures
        r as int == trailing_space_start(s@),
        r <= s@.len(),
{
    if let Some(target) = regex::bytes::Regex::new(r"\s*$").unwrap().find(s) {
        target.start()
    } else {
        s.len()
    }
}

/// Relies on regex `^\s*`: its match ends where the leading whitespace
/// run ends, and lies within the text.
#[verifier::external_body]
fn space_rightmost_at_start(s: &Vec<u8>) -> (r: usize)
    ensures
        r as int == leading_space_len(s@),
        r <= s@.len(),
{
    if let Some(target) = regex::bytes::Regex::new(r"^\s*").unwrap().find(s) {
        target.end()
    } else {
        0
    }
}

/// One segment of a split text: a half-open byte span of the original
/// text and, for an added-token match, the matched token's id.
#[derive(Debug, Clone, Copy, PartialEq, Eq)]
pub struct SplitSpan {
    pub start: usize,
    pub end: usize,
    pub token_id: Option<u32>,
}

/// The mathematical content of one span.
pub open spec fn span_view(sp: SplitSpan) -> (int, int, Option<u32>) {
    (sp.start as int, sp.end as int, sp.token_id)
}

/// The mathematical content of a span list.
pub open spec fn spans_view(s: Seq<SplitSpan>) -> Seq<(int, int, Option<u32>)> {
    s.map_values(|sp: SplitSpan| span_view(sp))
}

/// The mathematical content of a raw match list.
pub open spec fn match_views(s: Seq<(usize, usize, usize)>) -> Seq<(int, int, int)> {
    s.map_values(|m: (usize, usize, usize)| (m.0 as int, m.1 as int, m.2 as int))
}

/// A single-word token's match at `[s, e)` touches running text it may
/// not merge into: it is adjacent to a word character on a side where
/// the token's own content does not also start (resp. end) with one.
pub open spec fn single_violates(tok: TokenExtension, text: Seq<u8>, s: int, e: int) -> bool {
    ||| (s > 0 && seq_ends_with_word(text.take(s)) && !seq_starts_with_word(tok.content@))
    ||| (e < text.len() && seq_starts_with_word(text.skip(e)) && !seq_ends_with_word(tok.content@))
}

/// The segmentation of `text` around the accepted matches of `ms` from
/// match index `k` on, with `cursor` the start of the not yet covered
/// text.
///
/// Each match carries `(pattern index, start, end)`; `ids` maps pattern
/// index to token id, `table` holds the descriptors. A match is skipped
/// when it is malformed, overlaps text already covered, or violates the
/// single-word boundary rule. An accepted match absorbs adjacent
/// whitespace per its descriptor's `is_stripped` pair, the gap before
/// it (if any) becomes an ordinary span, and the remaining text after
/// the last match becomes a final ordinary span.
pub open spec fn split_spans(
    table: Seq<TokenExtension>,
    ids: Seq<u32>,
    text: Seq<u8>,
    ms: Seq<(int, int, int)>,
    k: int,
    cursor: int,
) -> Seq<(int, int, Option<u32>)>
    decreases ms.len() - k,
    when 0 <= k
{
    if k >= ms.len() {
        if cursor < text.len() {
            seq![(cursor, text.len() as int, Option::<u32>::None)]
        } else {
            Seq::empty()
        }
    } else {
        let m = ms[k];
        if !(0 <= m.0 < ids.len() && (ids[m.0] as int) < table.len() && cursor <= m.1 && m.1 < m.2
            && m.2 <= text.len()) {
            split_spans(table, ids, text, ms, k + 1, cursor)
        } else {
            let id = ids[m.0];
            let tok = table[id as int];
            if tok.is_single && single_violates(tok, text, m.1, m.2) {
                split_spans(table, ids, text, ms, k + 1, cursor)
            } else {
                let ns0 = if tok.is_stripped.0 {
                    trailing_space_start(text.take(m.1))
                } else {
                    m.1
                };
                let ns = if ns0 < cursor {
                    cursor
                } else if ns0 > m.1 {
                    m.1
                } else {
                    ns0
                };
                let ne0 = if tok.is_stripped.1 {
                    m.2 + leading_space_len(text.skip(m.2))
                } else {
                    m.2
                };
                let ne = if ne0 > text.len() {
                    text.len() as int
                } else if ne0 < m.2 {
                    m.2
                } else {
                    ne0
                };
                let added = seq![(ns, ne, Option::Some(id))];
                let here = if cursor < ns {
                    seq![(cursor, ns, Option::<u32>::None)] + added
                } else {
                    added
                };
                here + split_spans(table, ids, text, ms, k + 1, ne)
            }
        }
    }
}

/// Every span of [`split_spans`] is non-empty and lies between the
/// cursor and the end of the text, and spans come in order.
pub proof fn lemma_split_spans_bounds(
    table: Seq<TokenExtension>,
    ids: Seq<u32>,
    text: Seq<u8>,
    ms: Seq<(int, int, int)>,
    k: int,
    cursor: int,
)
    requires
        0 <= k,
        0 <= cursor,
    ensures
        ({
            let sp = split_spans(table, ids, text, ms, k, cursor);
            forall|i: int|
                0 <= i < sp.len() ==> cursor <= (#[trigger] sp[i]).0 < sp[i].1 <= text.len()
        }),
    decreases ms.len() - k,
{
    let sp = split_spans(table, ids, text, ms, k, cursor);
    if k >= ms.len() {
    } else {
        let m = ms[k];
        if !(0 <= m.0 < ids.len() && (ids[m.0] as int) < table.len() && cursor <= m.1 && m.1 < m.2
            && m.2 <= text.len()) {
            lemma_split_spans_bounds(table, ids, text, ms, k + 1, cursor);
            assert(sp == split_spans(table, ids, text, ms, k + 1, cursor));
        } else {
            let id = ids[m.0];
            let tok = table[id as int];
            if tok.is_single && single_violates(tok, text, m.1, m.2) {
                lemma_split_spans_bounds(table, ids, text, ms, k + 1, cursor);
                assert(sp == split_spans(table, ids, text, ms, k + 1, cursor));
            } else {
                let ns0 = if tok.is_stripped.0 {
                    trailing_space_start(text.take(m.1))
                } else {
                    m.1
                };
                let ns = if ns0 < cursor {
                    cursor
                } else if ns0 > m.1 {
                    m.1
                } else {
                    ns0
                };
                let ne0 = if tok.is_stripped.1 {
                    m.2 + leading_space_len(text.skip(m.2))
                } else {
                    m.2
                };
                let ne = if ne0 > text.len() {
                    text.len() as int
                } else if ne0 < m.2 {
                    m.2
                } else {
                    ne0
                };
                lemma_split_spans_bounds(table, ids, text, ms, k + 1, ne);
                let rest = split_spans(table, ids, text, ms, k + 1, ne);
                if cursor < ns {
                    assert(sp =~= seq![
                        (cursor, ns, Option::<u32>::None),
                        (ns, ne, Option::Some(id)),
                    ] + rest);
                } else {
                    assert(sp =~= seq![(ns, ne, Option::Some(id))] + rest);
                }
                assert forall|i: int|
                    0 <= i < sp.len() implies cursor <= (#[trigger] sp[i]).0 < sp[i].1
                    <= text.len() by {
                    if cursor < ns {
                        if i >= 2 {
                            assert(sp[i] == rest[i - 2]);
                        }
                    } else {
                        if i >= 1 {
                            assert(sp[i] == rest[i - 1]);
                        }
                    }
                }
            }
        }
    }
}

/// Runs the accepted-match segmentation over `text`.
fn apply_matches(
    table: &Vec<TokenExtension>,
    ids: &Vec<u32>,
    text: &Vec<u8>,
    ms: &Vec<(usize, usize, usize)>,
) -> (r: Vec<SplitSpan>)
    ensures
        spans_view(r@) == split_spans(table@, ids@, text@, match_views(ms@), 0, 0),
{
    let ghost gms = match_views(ms@);
    let mut out: Vec<SplitSpan> = Vec::new();
    let mut cursor: usize = 0;
    let mut k: usize = 0;
    proof {
        assert(spans_view(out@) =~= Seq::<(int, int, Option<u32>)>::empty());
    }
    while k < ms.len()
        invariant
            0 <= k <= ms@.len(),
            gms == match_views(ms@),
            gms.len() == ms@.len(),
            0 <= cursor <= text@.len(),
            spans_view(out@) + split_spans(table@, ids@, text@, gms, k as int, cursor as int)
                == split_spans(table@, ids@, text@, gms, 0, 0),
        decreases ms@.len() - k,
    {
        let ghost gout = spans_view(out@);
        let ghost gtail = split_spans(table@, ids@, text@, gms, k as int, cursor as int);
        let m = ms[k];
        proof {
            assert(gms[k as int] == (m.0 as int, m.1 as int, m.2 as int));
        }
        let valid = m.0 < ids.len() && (ids[m.0] as usize) < table.len() && cursor <= m.1 && m.1
            < m.2 && m.2 <= text.len();
        if !valid {
            proof {
                assert(gtail == split_spans(table@, ids@, text@, gms, k as int + 1, cursor as int));
            }
            k += 1;
        } else {
            let id = ids[m.0];
            let tok = &table[id as usize];
            let mut rejected = false;
            if tok.is_single {
                let prefix = copy_range(text, 0, m.1);
                let suffix = copy_range(text, m.2, text.len());
                proof {
                    assert(prefix@ =~= text@.take(m.1 as int));
                    assert(suffix@ =~= text@.skip(m.2 as int));
                }
                let left_bad = m.1 > 0 && ends_with_word(&prefix) && !starts_with_word(
                    &tok.content,
                );
                let right_bad = m.2 < text.len() && starts_with_word(&suffix) && !ends_with_word(
                    &tok.content,
                );
                rejected = left_bad || right_bad;
                proof {
                    assert(rejected == single_violates(table@[id as int], text@, m.1 as int,
                        m.2 as int));
                }
            }
            if rejected {
                proof {
                    assert(gtail == split_spans(table@, ids@, text@, gms, k as int + 1,
                        cursor as int));
                }
                k += 1;
            } else {
                let ns: usize = if tok.is_stripped.0 {
                    let prefix = copy_range(text, 0, m.1);
                    proof {
                        assert(prefix@ =~= text@.take(m.1 as int));
                    }
                    let w = space_leftmost_at_end(&prefix);
                    if w < cursor {
                        cursor
                    } else if w > m.1 {
                        m.1
                    } else {
                        w
                    }
                } else {
                    m.1
                };
                let ne: usize = if tok.is_stripped.1 {
                    let suffix = copy_range(text, m.2, text.len());
                    proof {
                        assert(suffix@ =~= text@.skip(m.2 as int));
                    }
                    let w = space_rightmost_at_start(&suffix);
                    m.2 + w
                } else {
                    m.2
                };
                if cursor < ns {
                    out.push(SplitSpan { start: cursor, end: ns, token_id: None });
                }
                out.push(SplitSpan { start: ns, end: ne, token_id: Some(id) });
                proof {
                    let tail2 = split_spans(table@, ids@, text@, gms, k as int + 1, ne as int);
                    if cursor < ns {
                        assert(gtail == seq![
                            (cursor as int, ns as int, Option::<u32>::None),
                            (ns as int, ne as int, Option::Some(id)),
                        ] + tail2);
                        assert(spans_view(out@) =~= gout + seq![
                            (cursor as int, ns as int, Option::<u32>::None),
                            (ns as int, ne as int, Option::Some(id)),
                        ]);
                    } else {
                        assert(gtail == seq![(ns as int, ne as int, Option::Some(id))] + tail2);
                        assert(spans_view(out@) =~= gout + seq![
                            (ns as int, ne as int, Option::Some(id)),
                        ]);
                    }
                    assert(spans_view(out@) + tail2 =~= (gout + gtail));
                }
                cursor = ne;
                k += 1;
            }
        }
    }
    if cursor < text.len() {
        let n = text.len();
        out.push(SplitSpan { start: cursor, end: n, token_id: None });
        proof {
            assert(spans_view(out@) =~= spans_view(out@.drop_last()) + seq![
                (cursor as int, text@.len() as int, Option::<u32>::None),
            ]);
        }
    }
    proof {
        assert(spans_view(out@) =~= split_spans(table@, ids@, text@, gms, 0, 0));
    }
    out
}

/// Whether the two byte strings hold the same bytes.
pub(crate) fn bytes_equal(a: &Vec<u8>, b: &Vec<u8>) -> (r: bool)
    ensures
        r == (a@ == b@),
{
    if a.len() != b.len() {
        return false;
    }
    let mut i: usize = 0;
    while i < a.len()
        invariant
            0 <= i <= a@.len(),
            a@.len() == b@.len(),
            forall|j: int| 0 <= j < i ==> a@[j] == b@[j],
        decreases a@.len() - i,
    {
        if a[i] != b[i] {
            return false;
        }
        i += 1;
    }
    proof {
        assert(a@ =~= b@);
    }
    true
}

/// Whether a descriptor takes part in raw (literal-content) matching.
pub open spec fn raw_eligible(t: TokenExtension, enc_special: bool) -> bool {
    (!t.is_special || enc_special) && !t.is_normalized && t.content@.len() > 0
}

/// The literal pattern contents of the first `i` table entries that
/// take part in raw matching, in table order.
pub open spec fn raw_sel_patterns(table: Seq<TokenExtension>, enc: bool, i: int) -> Seq<Seq<u8>>
    decreases i,
{
    if i <= 0 {
        Seq::empty()
    } else {
        raw_sel_patterns(table, enc, i - 1) + if raw_eligible(table[i - 1], enc) {
            seq![table[i - 1].content@]
        } else {
            Seq::empty()
        }
    }
}

/// The token ids parallel to [`raw_sel_patterns`].
pub open spec fn raw_sel_ids(table: Seq<TokenExtension>, enc: bool, i: int) -> Seq<u32>
    decreases i,
{
    if i <= 0 {
        Seq::empty()
    } else {
        raw_sel_ids(table, enc, i - 1) + if raw_eligible(table[i - 1], enc) {
            seq![(i - 1) as u32]
        } else {
            Seq::empty()
        }
    }
}

/// A token content as the given normalizer (if any) transforms it.
pub open spec fn norm_of<N: Normalizer>(n: Option<&N>, c: Seq<u8>) -> Seq<u8> {
    match n {
        Option::Some(nn) => nn.spec_normalize(c).0,
        Option::None => c,
    }
}

/// Whether a descriptor takes part in normalized matching under `n`.
pub open spec fn norm_eligible<N: Normalizer>(t: TokenExtension, enc: bool, n: Option<&N>) -> bool {
    (!t.is_special || enc) && t.is_normalized && norm_of(n, t.content@).len() > 0
}

/// The normalized pattern contents of the first `i` table entries that
/// take part in normalized matching, in table order.
pub open spec fn norm_sel_patterns<N: Normalizer>(
    table: Seq<TokenExtension>,
    enc: bool,
    n: Option<&N>,
    i: int,
) -> Seq<Seq<u8>>
    decreases i,
{
    if i <= 0 {
        Seq::empty()
    } else {
        norm_sel_patterns(table, enc, n, i - 1) + if norm_eligible(table[i - 1], enc, n) {
            seq![norm_of(n, table[i - 1].content@)]
        } else {
            Seq::empty()
        }
    }
}

/// The token ids parallel to [`norm_sel_patterns`].
pub open spec fn norm_sel_ids<N: Normalizer>(
    table: Seq<TokenExtension>,
    enc: bool,
    n: Option<&N>,
    i: int,
) -> Seq<u32>
    decreases i,
{
    if i <= 0 {
        Seq::empty()
    } else {
        norm_sel_ids(table, enc, n, i - 1) + if norm_eligible(table[i - 1], enc, n) {
            seq![(i - 1) as u32]
        } else {
            Seq::empty()
        }
    }
}

/// Law: special-token gating. With special-token encoding off, no
/// special token's content is among the raw matching patterns (the
/// table holding each content once), so the matching engine cannot
/// report a special token.
pub proof fn lemma_special_gating(table: Seq<TokenExtension>, t: int, i: int)
    requires
        0 <= t < table.len(),
        table[t].is_special,
        0 <= i <= table.len(),
        forall|a: int, b: int|
            0 <= a < b < table.len() ==> (#[trigger] table[a]).content@ != (
            #[trigger] table[b]).content@,
    ensures
        forall|p: int|
            0 <= p < raw_sel_patterns(table, false, i).len() ==> #[trigger] raw_sel_patterns(
                table,
                false,
                i,
            )[p] != table[t].content@,
    decreases i,
{
    if i > 0 {
        lemma_special_gating(table, t, i - 1);
        let prev = raw_sel_patterns(table, false, i - 1);
        let cur = raw_sel_patterns(table, false, i);
        assert forall|p: int| 0 <= p < cur.len() implies #[trigger] cur[p]
            != table[t].content@ by {
            if p < prev.len() {
                assert(cur[p] == prev[p]);
            } else {
                if raw_eligible(table[i - 1], false) {
                    assert(cur[p] == table[i - 1].content@);
                    assert(i - 1 != t);
                    if i - 1 < t {
                        assert(table[i - 1].content@ != table[t].content@);
                    } else {
                        assert(table[t].content@ != table[i - 1].content@);
                    }
                } else {
                    assert(cur =~= prev);
                }
            }
        }
    }
}

/// A multi-pattern automaton paired with the ordered pattern contents
/// it was built from and the parallel list mapping pattern index to
/// token id.
#[derive(Debug)]
pub struct MatchingSet {
    pub automaton: Option<aho_corasick::AhoCorasick>,
    pub ids: Vec<u32>,
    pub patterns: Vec<Vec<u8>>,
}

impl MatchingSet {
    /// The automaton, where it exists, was built from exactly the
    /// stored patterns; it exists exactly when construction succeeds on
    /// them; and no stored pattern is empty.
    pub open spec fn wf(self) -> bool {
        &&& self.ids@.len() == self.patterns@.len()
        &&& forall|i: int|
            0 <= i < self.patterns@.len() ==> (#[trigger] self.patterns.deep_view()[i]).len() > 0
        &&& (self.automaton is Some <==> ac_build_ok(self.patterns.deep_view()))
        &&& self.automaton is Some ==> automaton_patterns(self.automaton.unwrap())
            == self.patterns.deep_view()
    }

    /// The leftmost-longest matches this set reports on `text` (none
    /// when the automaton could not be built).
    pub open spec fn spec_matches(self, text: Seq<u8>) -> Seq<(int, int, int)> {
        if self.automaton is Some {
            ll_matches(self.patterns.deep_view(), text, 0)
        } else {
            Seq::empty()
        }
    }
}

/// Builds a matching set over the given patterns and ids.
fn build_matching_set(patterns: Vec<Vec<u8>>, ids: Vec<u32>) -> (r: MatchingSet)
    requires
        ids@.len() == patterns@.len(),
        forall|i: int| 0 <= i < patterns@.len() ==> (#[trigger] patterns.deep_view()[i]).len() > 0,
    ensures
        r.wf(),
        r.patterns.deep_view() == patterns.deep_view(),
        r.ids@ == ids@,
{
    let automaton = build_automaton(&patterns);
    MatchingSet { automaton, ids, patterns }
}

/// Where `content` first occurs in the table at or after index `i`.
pub open spec fn find_content(table: Seq<TokenExtension>, content: Seq<u8>, i: int) -> Option<int>
    decreases table.len() - i,
    when 0 <= i
{
    if i >= table.len() {
        Option::None
    } else if table[i].content@ == content {
        Option::Some(i)
    } else {
        find_content(table, content, i + 1)
    }
}

/// `t` with `is_special` OR-ed with `sp`.
pub open spec fn or_special(t: TokenExtension, sp: bool) -> TokenExtension {
    TokenExtension {
        content: t.content,
        is_single: t.is_single,
        is_normalized: t.is_normalized,
        is_special: t.is_special || sp,
        is_stripped: t.is_stripped,
    }
}

/// One descriptor added to the table: a duplicate content merges
/// `is_special` into the existing entry and yields its existing id; new
/// content is appended under the next free id.
pub open spec fn add_one(table: Seq<TokenExtension>, d: TokenExtension, as_special: bool) -> (
    Seq<TokenExtension>,
    u32,
) {
    match find_content(table, d.content@, 0) {
        Option::Some(j) => (
            table.update(j, or_special(table[j], d.is_special || as_special)),
            j as u32,
        ),
        Option::None => (table.push(or_special(d, as_special)), table.len() as u32),
    }
}

/// The first `i` descriptors added in order: the resulting table and
/// the ids issued.
pub open spec fn add_all(
    table: Seq<TokenExtension>,
    ds: Seq<TokenExtension>,
    as_special: bool,
    i: int,
) -> (Seq<TokenExtension>, Seq<u32>)
    decreases i,
{
    if i <= 0 {
        (table, Seq::empty())
    } else {
        let prev = add_all(table, ds, as_special, i - 1);
        let one = add_one(prev.0, ds[i - 1], as_special);
        (one.0, prev.1.push(one.1))
    }
}

/// The added-vocabulary extension: the id-ordered token table (a
/// token's id is its table index, stable once issued and never
/// reused), the special-token toggle, and the two matching sets.
#[derive(Debug)]
pub struct VocabExtension {
    /// The added-token table; entry `i` is the token with id `i`.
    pub added_tokens: Vec<TokenExtension>,
    /// Whether special tokens are eligible for matching during
    /// plain-text encoding.
    pub encode_special_tokens: bool,
    /// The automaton over literal content.
    pub split_trie: MatchingSet,
    /// The automaton over normalized content.
    pub split_normalized_trie: MatchingSet,
}

impl VocabExtension {
    /// No two table entries share a content.
    pub open spec fn contents_unique(self) -> bool {
        forall|i: int, j: int|
            0 <= i < j < self.added_tokens@.len() ==> (#[trigger] self.added_tokens@[i]).content@
                != (#[trigger] self.added_tokens@[j]).content@
    }

    /// Structural invariant of the extension.
    pub open spec fn wf(self) -> bool {
        &&& self.contents_unique()
        &&& self.split_trie.wf()
        &&& self.split_normalized_trie.wf()
    }

    /// The two matching sets are a complete, consistent rebuild of the
    /// current table under the given normalizer.
    pub open spec fn tries_current<N: Normalizer>(self, n: Option<&N>) -> bool {
        let len = self.added_tokens@.len() as int;
        &&& self.split_trie.patterns.deep_view() == raw_sel_patterns(
            self.added_tokens@,
            self.encode_special_tokens,
            len,
        )
        &&& self.split_trie.ids@ == raw_sel_ids(self.added_tokens@, self.encode_special_tokens, len)
        &&& self.split_normalized_trie.patterns.deep_view() == norm_sel_patterns(
            self.added_tokens@,
            self.encode_special_tokens,
            n,
            len,
        )
        &&& self.split_normalized_trie.ids@ == norm_sel_ids(
            self.added_tokens@,
            self.encode_special_tokens,
            n,
            len,
        )
    }

    /// An empty extension: no added tokens, special-token encoding off.
    pub fn new() -> (r: Self)
        ensures
            r.wf(),
            r.added_tokens@.len() == 0,
            !r.encode_special_tokens,
            r.split_trie.patterns@.len() == 0,
            r.split_normalized_trie.patterns@.len() == 0,
    {
        let split_trie = build_matching_set(Vec::new(), Vec::new());
        let split_normalized_trie = build_matching_set(Vec::new(), Vec::new());
        VocabExtension {
            added_tokens: Vec::new(),
            encode_special_tokens: false,
            split_trie,
            split_normalized_trie,
        }
    }

    /// Number of added tokens.
    pub fn len(&self) -> (r: usize)
        ensures
            r == self.added_tokens@.len(),
    {
        self.added_tokens.len()
    }

    /// The id under which `content` is registered, if any.
    pub fn token_to_id(&self, content: &Vec<u8>) -> (r: Option<u32>)
        requires
            self.added_tokens@.len() <= u32::MAX,
        ensures
            r is Some <==> find_content(self.added_tokens@, content@, 0) is Some,
            r is Some ==> r.unwrap() as int == find_content(
                self.added_tokens@,
                content@,
                0,
            ).unwrap(),
    {
        let mut i: usize = 0;
        while i < self.added_tokens.len()
            invariant
                0 <= i <= self.added_tokens@.len(),
                self.added_tokens@.len() <= u32::MAX,
                find_content(self.added_tokens@, content@, 0) == find_content(
                    self.added_tokens@,
                    content@,
                    i as int,
                ),
            decreases self.added_tokens@.len() - i,
        {
            if bytes_equal(&self.added_tokens[i].content, content) {
                return Some(i as u32);
            }
            i += 1;
        }
        None
    }

    /// The descriptor registered under `id`, if any.
    pub fn id_to_token(&self, id: u32) -> (r: Option<&TokenExtension>)
        ensures
            r is Some <==> (id as int) < self.added_tokens@.len(),
            r is Some ==> *r.unwrap() == self.added_tokens@[id as int],
    {
        if (id as usize) < self.added_tokens.len() {
            Some(&self.added_tokens[id as usize])
        } else {
            None
        }
    }

    /// The table as it serializes: one `{id, descriptor}` entry per
    /// token, sorted by id.
    pub fn to_entries(&self) -> (r: Vec<TokenExtensionID>)
        requires
            self.added_tokens@.len() <= u32::MAX,
        ensures
            r@.len() == self.added_tokens@.len(),
            forall|i: int|
                0 <= i < r@.len() ==> {
                    let t = self.added_tokens@[i];
                    &&& (#[trigger] r@[i]).id == i as u32
                    &&& r@[i].token.content@ == t.content@
                    &&& r@[i].token.is_single == t.is_single
                    &&& r@[i].token.is_normalized == t.is_normalized
                    &&& r@[i].token.is_special == t.is_special
                    &&& r@[i].token.is_stripped == t.is_stripped
                },
    {
        let mut r: Vec<TokenExtensionID> = Vec::new();
        let mut i: usize = 0;
        while i < self.added_tokens.len()
            invariant
                0 <= i <= self.added_tokens@.len(),
                self.added_tokens@.len() <= u32::MAX,
                r@.len() == i,
                forall|k: int|
                    0 <= k < i ==> {
                        let t = self.added_tokens@[k];
                        &&& (#[trigger] r@[k]).id == k as u32
                        &&& r@[k].token.content@ == t.content@
                        &&& r@[k].token.is_single == t.is_single
                        &&& r@[k].token.is_normalized == t.is_normalized
                        &&& r@[k].token.is_special == t.is_special
                        &&& r@[k].token.is_stripped == t.is_stripped
                    },
            decreases self.added_tokens@.len() - i,
        {
            let token = self.added_tokens[i].clone();
            r.push(TokenExtensionID { id: i as u32, token });
            i += 1;
        }
        r
    }

    /// Rebuilds both matching sets from the current table: a complete,
    /// atomic replacement, never an incremental edit.
    pub fn rebuild<N: Normalizer>(&mut self, normalizer: Option<&N>)
        requires
            old(self).added_tokens@.len() <= u32::MAX,
        ensures
            final(self).added_tokens == old(self).added_tokens,
            final(self).encode_special_tokens == old(self).encode_special_tokens,
            final(self).split_trie.wf(),
            final(self).split_normalized_trie.wf(),
            final(self).tries_current(normalizer),
    {
        let enc = self.encode_special_tokens;
        let n = self.added_tokens.len();
        let mut rpats: Vec<Vec<u8>> = Vec::new();
        let mut rids: Vec<u32> = Vec::new();
        let mut npats: Vec<Vec<u8>> = Vec::new();
        let mut nids: Vec<u32> = Vec::new();
        let mut t: usize = 0;
        proof {
            assert(rpats.deep_view() =~= raw_sel_patterns(self.added_tokens@, enc, 0));
            assert(npats.deep_view() =~= norm_sel_patterns(self.added_tokens@, enc, normalizer, 0));
        }
        while t < n
            invariant
                0 <= t <= n,
                n == self.added_tokens@.len(),
                n <= u32::MAX,
                rids@.len() == rpats@.len(),
                nids@.len() == npats@.len(),
                forall|i: int|
                    0 <= i < rpats@.len() ==> (#[trigger] rpats.deep_view()[i]).len() > 0,
                forall|i: int|
                    0 <= i < npats@.len() ==> (#[trigger] npats.deep_view()[i]).len() > 0,
                rpats.deep_view() == raw_sel_patterns(self.added_tokens@, enc, t as int),
                rids@ == raw_sel_ids(self.added_tokens@, enc, t as int),
                npats.deep_view() == norm_sel_patterns(
                    self.added_tokens@,
                    enc,
                    normalizer,
                    t as int,
                ),
                nids@ == norm_sel_ids(self.added_tokens@, enc, normalizer, t as int),
            decreases n - t,
        {
            let tok = &self.added_tokens[t];
            let eligible_flags = !tok.is_special || enc;
            if eligible_flags && !tok.is_normalized && tok.content.len() > 0 {
                let ghost before = rpats.deep_view();
                let content = copy_range(&tok.content, 0, tok.content.len());
                proof {
                    assert(content@ =~= tok.content@);
                }
                let ghost gcontent = content@;
                rpats.push(content);
                rids.push(t as u32);
                proof {
                    assert(rpats@.last().deep_view() =~= gcontent);
                    assert(rpats.deep_view() =~~= before.push(self.added_tokens@[t as int].content@));
                    assert(raw_sel_patterns(self.added_tokens@, enc, t as int + 1)
                        =~= before.push(self.added_tokens@[t as int].content@));
                    assert(raw_sel_ids(self.added_tokens@, enc, t as int + 1) =~= rids@);
                }
            } else {
                proof {
                    assert(raw_sel_patterns(self.added_tokens@, enc, t as int + 1)
                        =~= rpats.deep_view());
                    assert(raw_sel_ids(self.added_tokens@, enc, t as int + 1) =~= rids@);
                }
            }
            if eligible_flags && tok.is_normalized {
                let ncontent: Vec<u8> = match normalizer {
                    Option::Some(nr) => nr.normalize(&tok.content).0,
                    Option::None => {
                        let same = copy_range(&tok.content, 0, tok.content.len());
                        proof {
                            assert(same@ =~= tok.content@);
                        }
                        same
                    },
                };
                proof {
                    assert(ncontent@ == norm_of(normalizer, self.added_tokens@[t as int].content@));
                }
                if ncontent.len() > 0 {
                    let ghost before = npats.deep_view();
                    let ghost gncontent = ncontent@;
                    npats.push(ncontent);
                    nids.push(t as u32);
                    proof {
                        assert(npats@.last().deep_view() =~= gncontent);
                        assert(npats.deep_view() =~~= before.push(norm_of(
                            normalizer,
                            self.added_tokens@[t as int].content@,
                        )));
                        assert(norm_sel_patterns(self.added_tokens@, enc, normalizer, t as int + 1)
                            =~= npats.deep_view());
                        assert(norm_sel_ids(self.added_tokens@, enc, normalizer, t as int + 1)
                            =~= nids@);
                    }
                } else {
                    proof {
                        assert(norm_sel_patterns(self.added_tokens@, enc, normalizer, t as int + 1)
                            =~= npats.deep_view());
                        assert(norm_sel_ids(self.added_tokens@, enc, normalizer, t as int + 1)
                            =~= nids@);
                    }
                }
            } else {
                proof {
                    assert(norm_sel_patterns(self.added_tokens@, enc, normalizer, t as int + 1)
                        =~= npats.deep_view());
                    assert(norm_sel_ids(self.added_tokens@, enc, normalizer, t as int + 1)
                        =~= nids@);
                }
            }
            t += 1;
        }
        self.split_trie = build_matching_set(rpats, rids);
        self.split_normalized_trie = build_matching_set(npats, nids);
    }

    /// Turns special-token matching on or off and rebuilds both
    /// matching sets accordingly.
    pub fn set_encode_special_tokens<N: Normalizer>(&mut self, enc: bool, normalizer: Option<&N>)
        requires
            old(self).added_tokens@.len() <= u32::MAX,
        ensures
            final(self).added_tokens == old(self).added_tokens,
            final(self).encode_special_tokens == enc,
            final(self).split_trie.wf(),
            final(self).split_normalized_trie.wf(),
            final(self).tries_current(normalizer),
    {
        self.encode_special_tokens = enc;
        self.rebuild(normalizer);
    }

    /// Registers descriptors, deduplicating by content: an existing
    /// content keeps its id and has `is_special` OR-ed in; new content
    /// is appended under the next free id. Returns the id of every
    /// descriptor, in order, and rebuilds both matching sets. Never
    /// fails.
    pub fn add_tokens<N: Normalizer>(
        &mut self,
        descriptors: Vec<TokenExtension>,
        as_special: bool,
        normalizer: Option<&N>,
    ) -> (r: Vec<u32>)
        requires
            old(self).wf(),
            old(self).added_tokens@.len() + descriptors@.len() <= u32::MAX,
        ensures
            final(self).wf(),
            final(self).encode_special_tokens == old(self).encode_special_tokens,
            final(self).added_tokens@ == add_all(
                old(self).added_tokens@,
                descriptors@,
                as_special,
                descriptors@.len() as int,
            ).0,
            r@ == add_all(
                old(self).added_tokens@,
                descriptors@,
                as_special,
                descriptors@.len() as int,
            ).1,
            final(self).tries_current(normalizer),
    {
        let ghost gtable = self.added_tokens@;
        let ghost gds = descriptors@;
        let mut rest = descriptors;
        let nds = rest.len();
        let mut r: Vec<u32> = Vec::new();
        let mut k: usize = 0;
        proof {
            assert(rest@ =~= gds.skip(0));
            lemma_add_all_len(gtable, gds, as_special, 0);
        }
        while rest.len() > 0
            invariant
                k + rest@.len() == gds.len(),
                gds.len() == nds,
                rest@ == gds.skip(k as int),
                gtable.len() + gds.len() <= u32::MAX,
                self.added_tokens@ == add_all(gtable, gds, as_special, k as int).0,
                r@ == add_all(gtable, gds, as_special, k as int).1,
                self.added_tokens@.len() <= gtable.len() + k,
                self.encode_special_tokens == old(self).encode_special_tokens,
                self.split_trie == old(self).split_trie,
                self.split_normalized_trie == old(self).split_normalized_trie,
                self.contents_unique(),
            decreases rest@.len(),
        {
            let d = rest.remove(0);
            proof {
                assert(d == gds[k as int]);
                assert(rest@ =~= gds.skip(k as int + 1));
                lemma_add_all_len(gtable, gds, as_special, k as int);
            }
            let found = self.token_to_id(&d.content);
            let ghost prev_table = self.added_tokens@;
            match found {
                Option::Some(j) => {
                    proof {
                        lemma_find_content_some(prev_table, gds[k as int].content@, 0);
                        lemma_add_all_len(gtable, gds, as_special, k as int + 1);
                    }
                    let merge_special = d.is_special || as_special;
                    let mut existing = self.added_tokens.remove(j as usize);
                    existing.is_special = existing.is_special || merge_special;
                    self.added_tokens.insert(j as usize, existing);
                    r.push(j);
                    proof {
                        assert(self.added_tokens@ =~= prev_table.update(
                            j as int,
                            or_special(prev_table[j as int], merge_special),
                        ));
                        assert(self.added_tokens@ == add_all(gtable, gds, as_special, k as int
                            + 1).0);
                        assert(r@ =~= add_all(gtable, gds, as_special, k as int + 1).1);
                        assert forall|a: int, b: int|
                            0 <= a < b < self.added_tokens@.len() implies (
                        #[trigger] self.added_tokens@[a]).content@ != (
                        #[trigger] self.added_tokens@[b]).content@ by {
                            assert(prev_table[a].content@ != prev_table[b].content@);
                        }
                    }
                },
                Option::None => {
                    proof {
                        lemma_add_all_len(gtable, gds, as_special, k as int + 1);
                    }
                    let id = self.added_tokens.len() as u32;
                    let mut fresh = d;
                    fresh.is_special = fresh.is_special || as_special;
                    self.added_tokens.push(fresh);
                    r.push(id);
                    proof {
                        lemma_find_content_none(prev_table, gds[k as int].content@, 0);
                        assert(self.added_tokens@ =~= prev_table.push(or_special(
                            gds[k as int],
                            as_special,
                        )));
                        assert(self.added_tokens@ == add_all(gtable, gds, as_special, k as int
                            + 1).0);
                        assert(r@ =~= add_all(gtable, gds, as_special, k as int + 1).1);
                        assert forall|a: int, b: int|
                            0 <= a < b < self.added_tokens@.len() implies (
                        #[trigger] self.added_tokens@[a]).content@ != (
                        #[trigger] self.added_tokens@[b]).content@ by {
                            if b < self.added_tokens@.len() - 1 {
                                assert(prev_table[a].content@ != prev_table[b].content@);
                            } else {
                                assert(prev_table[a].content@ != gds[k as int].content@);
                            }
                        }
                    }
                },
            }
            k += 1;
        }
        proof {
            assert(gds.skip(gds.len() as int) =~= Seq::<TokenExtension>::empty());
            assert(k as int == gds.len());
        }
        self.rebuild(normalizer);
        r
    }
}

/// Adding `i` descriptors grows the table by at most `i`.
pub proof fn lemma_add_all_len(
    table: Seq<TokenExtension>,
    ds: Seq<TokenExtension>,
    as_special: bool,
    i: int,
)
    ensures
        table.len() <= add_all(table, ds, as_special, i).0.len(),
        i >= 0 ==> add_all(table, ds, as_special, i).0.len() <= table.len() + i,
    decreases i,
{
    if i > 0 {
        lemma_add_all_len(table, ds, as_special, i - 1);
        let prev = add_all(table, ds, as_special, i - 1);
        let one = add_one(prev.0, ds[i - 1], as_special);
        match find_content(prev.0, ds[i - 1].content@, 0) {
            Option::Some(j) => {
                lemma_find_content_some(prev.0, ds[i - 1].content@, 0);
                assert(one.0.len() == prev.0.len());
            },
            Option::None => {
                assert(one.0.len() == prev.0.len() + 1);
            },
        }
    }
}

/// A found index is a real table index holding the sought content.
pub proof fn lemma_find_content_some(table: Seq<TokenExtension>, content: Seq<u8>, i: int)
    requires
        0 <= i,
        find_content(table, content, i) is Some,
    ensures
        ({
            let j = find_content(table, content, i).unwrap();
            &&& i <= j < table.len()
            &&& table[j].content@ == content
        }),
    decreases table.len() - i,
{
    if i < table.len() {
        if table[i].content@ != content {
            lemma_find_content_some(table, content, i + 1);
        }
    }
}

/// The normalized form and alignment map of a run: through the given
/// normalizer, or the identity pair when none is configured.
pub open spec fn norm_pair<N: Normalizer>(n: Option<&N>, run: Seq<u8>) -> (
    Seq<u8>,
    Seq<(usize, usize)>,
) {
    match n {
        Option::Some(nn) => nn.spec_normalize(run),
        Option::None => (run, Seq::new(run.len(), |i: int| ((i as usize, (i + 1) as usize)))),
    }
}

/// A span of a normalized run mapped back to original-text byte
/// coordinates through the run's alignment map, `base` being the run's
/// start in the original text.
pub open spec fn remap_span(
    v: (int, int, Option<u32>),
    align: Seq<(usize, usize)>,
    base: int,
) -> (int, int, Option<u32>) {
    let s = if 0 <= v.0 < align.len() {
        base + align[v.0].0
    } else {
        base
    };
    let e = if 0 <= v.1 - 1 < align.len() {
        base + align[v.1 - 1].1
    } else {
        base
    };
    (s, e, v.2)
}

/// All spans of a normalized run mapped back to original coordinates.
pub open spec fn remap_spans(
    spans: Seq<(int, int, Option<u32>)>,
    align: Seq<(usize, usize)>,
    base: int,
) -> Seq<(int, int, Option<u32>)> {
    spans.map_values(|v: (int, int, Option<u32>)| remap_span(v, align, base))
}

impl VocabExtension {
    /// The first (raw) matching pass: the segmentation of `text` around
    /// the literal-content automaton's accepted matches.
    pub open spec fn spec_split_raw(self, text: Seq<u8>) -> Seq<(int, int, Option<u32>)> {
        split_spans(
            self.added_tokens@,
            self.split_trie.ids@,
            text,
            self.split_trie.spec_matches(text),
            0,
            0,
        )
    }

    /// The second matching pass over one normalized run.
    pub open spec fn spec_split_normalized(self, text: Seq<u8>) -> Seq<(int, int, Option<u32>)> {
        split_spans(
            self.added_tokens@,
            self.split_normalized_trie.ids@,
            text,
            self.split_normalized_trie.spec_matches(text),
            0,
            0,
        )
    }

    /// The two-pass segmentation: the raw pass's added spans stand as
    /// they are; each ordinary run is normalized, matched against the
    /// normalized-content automaton, and every resulting span is
    /// positioned against the original text through the alignment map.
    pub open spec fn spec_split_compose<N: Normalizer>(
        self,
        text: Seq<u8>,
        n: Option<&N>,
        raw: Seq<(int, int, Option<u32>)>,
        k: int,
    ) -> Seq<(int, int, Option<u32>)>
        decreases raw.len() - k,
        when 0 <= k
    {
        if k >= raw.len() {
            Seq::empty()
        } else {
            let sp = raw[k];
            if sp.2 is Some || !(0 <= sp.0 <= sp.1 <= text.len()) {
                seq![sp] + self.spec_split_compose(text, n, raw, k + 1)
            } else {
                let run = text.subrange(sp.0, sp.1);
                let pair = norm_pair(n, run);
                remap_spans(self.spec_split_normalized(pair.0), pair.1, sp.0)
                    + self.spec_split_compose(text, n, raw, k + 1)
            }
        }
    }

    /// The full split of `text`: see [`VocabExtension::spec_split_compose`].
    pub open spec fn spec_split<N: Normalizer>(self, text: Seq<u8>, n: Option<&N>) -> Seq<
        (int, int, Option<u32>),
    > {
        self.spec_split_compose(text, n, self.spec_split_raw(text), 0)
    }

    /// First matching pass, against the untouched text.
    pub fn split_raw(&self, text: &Vec<u8>) -> (r: Vec<SplitSpan>)
        requires
            self.wf(),
        ensures
            spans_view(r@) == self.spec_split_raw(text@),
    {
        let ms = match &self.split_trie.automaton {
            Option::Some(ac) => find_automaton_matches(ac, text),
            Option::None => Vec::new(),
        };
        proof {
            assert(match_views(ms@) =~= self.split_trie.spec_matches(text@));
        }
        apply_matches(&self.added_tokens, &self.split_trie.ids, text, &ms)
    }

    /// Second matching pass, against one normalized run.
    pub fn split_normalized(&self, text: &Vec<u8>) -> (r: Vec<SplitSpan>)
        requires
            self.wf(),
        ensures
            spans_view(r@) == self.spec_split_normalized(text@),
    {
        let ms = match &self.split_normalized_trie.automaton {
            Option::Some(ac) => find_automaton_matches(ac, text),
            Option::None => Vec::new(),
        };
        proof {
            assert(match_views(ms@) =~= self.split_normalized_trie.spec_matches(text@));
        }
        apply_matches(&self.added_tokens, &self.split_normalized_trie.ids, text, &ms)
    }

    /// Splits `text` into an ordered sequence of spans: added-token
    /// spans (with their ids) and ordinary runs, by the two-pass
    /// algorithm of [`VocabExtension::spec_split`].
    pub fn split<N: Normalizer>(&self, text: &Vec<u8>, normalizer: Option<&N>) -> (r: Vec<
        SplitSpan,
    >)
        requires
            self.wf(),
        ensures
            spans_view(r@) == self.spec_split(text@, normalizer),
    {
        let raw = self.split_raw(text);
        let ghost graw = spans_view(raw@);
        proof {
            lemma_split_spans_bounds(
                self.added_tokens@,
                self.split_trie.ids@,
                text@,
                self.split_trie.spec_matches(text@),
                0,
                0,
            );
        }
        let mut out: Vec<SplitSpan> = Vec::new();
        let mut k: usize = 0;
        proof {
            assert(spans_view(out@) =~= Seq::<(int, int, Option<u32>)>::empty());
        }
        while k < raw.len()
            invariant
                self.wf(),
                0 <= k <= raw@.len(),
                graw == spans_view(raw@),
                graw.len() == raw@.len(),
                forall|i: int| 0 <= i < graw.len() ==> 0 <= (#[trigger] graw[i]).0 < graw[i].1
                    <= text@.len(),
                spans_view(out@) + self.spec_split_compose(text@, normalizer, graw, k as int)
                    == self.spec_split_compose(text@, normalizer, graw, 0),
            decreases raw@.len() - k,
        {
            let ghost gout = spans_view(out@);
            let ghost gtail = self.spec_split_compose(text@, normalizer, graw, k as int);
            let ghost gtail2 = self.spec_split_compose(text@, normalizer, graw, k as int + 1);
            let sp = raw[k];
            proof {
                assert(graw[k as int] == span_view(sp));
            }
            if sp.token_id.is_some() {
                out.push(sp);
                proof {
                    assert(gtail == seq![span_view(sp)] + gtail2);
                    assert(spans_view(out@) =~= gout + seq![span_view(sp)]);
                    assert(spans_view(out@) + gtail2 =~= gout + gtail);
                }
            } else {
                let run = copy_range(text, sp.start, sp.end);
                proof {
                    assert(run@ == text@.subrange(sp.start as int, sp.end as int));
                }
                let pr: (Vec<u8>, Vec<(usize, usize)>) = match normalizer {
                    Option::Some(nr) => {
                        let p = nr.normalize(&run);
                        proof {
                            nr.normalize_alignment_ok(run@);
                        }
                        p
                    },
                    Option::None => {
                        let idn = crate::stages::IdentityNormalizer;
                        let p = idn.normalize(&run);
                        proof {
                            idn.normalize_alignment_ok(run@);
                            assert(p.0@ == norm_pair(normalizer, run@).0);
                            assert(p.1@ == norm_pair(normalizer, run@).1);
                        }
                        p
                    },
                };
                let ntext = pr.0;
                let align = pr.1;
                proof {
                    assert(ntext@ == norm_pair(normalizer, run@).0);
                    assert(align@ == norm_pair(normalizer, run@).1);
                    assert(crate::stages::alignment_ok(run@, ntext@, align@));
                }
                let sub = self.split_normalized(&ntext);
                let ghost gsub = self.spec_split_normalized(ntext@);
                let ghost base = sp.start as int;
                let mut j: usize = 0;
                let ghost run_len = run@.len();
                while j < sub.len()
                    invariant
                        0 <= j <= sub@.len(),
                        spans_view(sub@) == gsub,
                        gsub.len() == sub@.len(),
                        crate::stages::alignment_ok(run@, ntext@, align@),
                        run_len == run@.len(),
                        base == sp.start as int,
                        base + run_len == sp.end as int,
                        sp.end <= text@.len(),
                        spans_view(out@) == gout + remap_spans(gsub, align@, base).take(j as int),
                    decreases sub@.len() - j,
                {
                    let v = sub[j];
                    proof {
                        assert(gsub[j as int] == span_view(v));
                    }
                    let s2: usize = if v.start < align.len() {
                        sp.start + align[v.start].0
                    } else {
                        sp.start
                    };
                    let e2: usize = if v.end >= 1 && v.end - 1 < align.len() {
                        sp.start + align[v.end - 1].1
                    } else {
                        sp.start
                    };
                    out.push(SplitSpan { start: s2, end: e2, token_id: v.token_id });
                    proof {
                        assert(span_view(SplitSpan { start: s2, end: e2, token_id: v.token_id })
                            == remap_span(gsub[j as int], align@, base));
                        assert(remap_spans(gsub, align@, base).take(j as int + 1) =~= remap_spans(
                            gsub,
                            align@,
                            base,
                        ).take(j as int).push(remap_span(gsub[j as int], align@, base)));
                        assert(spans_view(out@) =~= (gout + remap_spans(gsub, align@, base).take(
                            j as int)).push(remap_span(gsub[j as int], align@, base)));
                    }
                    j += 1;
                }
                proof {
                    assert(remap_spans(gsub, align@, base).take(sub@.len() as int) =~= remap_spans(
                        gsub,
                        align@,
                        base,
                    ));
                    assert(gtail == remap_spans(gsub, align@, base) + gtail2);
                    assert(spans_view(out@) + gtail2 =~= gout + gtail);
                }
            }
            k += 1;
        }
        proof {
            assert(self.spec_split_compose(text@, normalizer, graw, graw.len() as int)
                =~= Seq::<(int, int, Option<u32>)>::empty());
            assert(spans_view(out@) =~= self.spec_split(text@, normalizer));
        }
        out
    }
}

/// When a linear scan finds no matching content, neither does
/// [`find_content`].
pub proof fn lemma_find_content_none(table: Seq<TokenExtension>, content: Seq<u8>, i: int)
    requires
        0 <= i,
        find_content(table, content, i) is None,
    ensures
        forall|j: int| i <= j < table.len() ==> (#[trigger] table[j]).content@ != content,
    decreases table.len() - i,
{
    if i < table.len() {
        lemma_find_content_none(table, content, i + 1);
    }
}

} // verus!
