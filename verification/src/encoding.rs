//! The aligned output record of every encode call: seven parallel
//! sequences plus overflow children and per-sequence token ranges.

use vstd::prelude::*;

use crate::error::TokenizerError;

verus! {

/// A half-open `(start, end)` byte-index pair into the original text.
pub type Offset = (usize, usize);

/// The canonical alignment-preserving record produced by every encode
/// call.
///
/// The seven parallel sequences (`id`, `id_type`, `tokens`, `words`,
/// `offsets`, `special_tokens_mask`, `attention_mask`) always have equal
/// length, recursively including every overflow child: see
/// [`Encoding::wf`], which every constructor establishes and every
/// mutator preserves.
#[derive(Debug)]
pub struct Encoding {
    /// Token ids.
    pub id: Vec<u32>,
    /// Segment/type ids.
    pub id_type: Vec<u32>,
    /// Surface form of each token, as bytes.
    pub tokens: Vec<Vec<u8>>,
    /// Source-word index of each token; `None` for added/special tokens
    /// and padding.
    pub words: Vec<Option<u32>>,
    /// Span of each token in the original, pre-normalization text.
    pub offsets: Vec<Offset>,
    /// 1 where the token is a special token, else 0.
    pub special_tokens_mask: Vec<u32>,
    /// 1 for a real token, 0 for padding.
    pub attention_mask: Vec<u32>,
    /// Child encodings produced by truncation.
    pub overflowing: Vec<Encoding>,
    /// For encodings built by concatenating several inputs: entry `i` is
    /// the half-open token-index range input `i` occupies in the result.
    pub sequence_ranges: Vec<(usize, usize)>,
}

/// Token ids of the first `i` of `parts`, concatenated in order.
pub open spec fn cat_id(parts: Seq<Encoding>, i: int) -> Seq<u32>
    decreases i,
{
    if i <= 0 {
        Seq::empty()
    } else {
        cat_id(parts, i - 1) + parts[i - 1].id@
    }
}

/// Segment ids of the first `i` of `parts`, concatenated in order.
pub open spec fn cat_id_type(parts: Seq<Encoding>, i: int) -> Seq<u32>
    decreases i,
{
    if i <= 0 {
        Seq::empty()
    } else {
        cat_id_type(parts, i - 1) + parts[i - 1].id_type@
    }
}

/// Surface tokens of the first `i` of `parts`, concatenated in order.
pub open spec fn cat_tokens(parts: Seq<Encoding>, i: int) -> Seq<Seq<u8>>
    decreases i,
{
    if i <= 0 {
        Seq::empty()
    } else {
        cat_tokens(parts, i - 1) + parts[i - 1].tokens.deep_view()
    }
}

/// Word indices of the first `i` of `parts`, concatenated in order.
pub open spec fn cat_words(parts: Seq<Encoding>, i: int) -> Seq<Option<u32>>
    decreases i,
{
    if i <= 0 {
        Seq::empty()
    } else {
        cat_words(parts, i - 1) + parts[i - 1].words@
    }
}

/// Offsets of the first `i` of `parts`, concatenated verbatim.
pub open spec fn cat_offsets(parts: Seq<Encoding>, i: int) -> Seq<Offset>
    decreases i,
{
    if i <= 0 {
        Seq::empty()
    } else {
        cat_offsets(parts, i - 1) + parts[i - 1].offsets@
    }
}

/// Special-token masks of the first `i` of `parts`, concatenated in order.
pub open spec fn cat_special(parts: Seq<Encoding>, i: int) -> Seq<u32>
    decreases i,
{
    if i <= 0 {
        Seq::empty()
    } else {
        cat_special(parts, i - 1) + parts[i - 1].special_tokens_mask@
    }
}

/// Attention masks of the first `i` of `parts`, concatenated in order.
pub open spec fn cat_attention(parts: Seq<Encoding>, i: int) -> Seq<u32>
    decreases i,
{
    if i <= 0 {
        Seq::empty()
    } else {
        cat_attention(parts, i - 1) + parts[i - 1].attention_mask@
    }
}

/// The running end-offset one encoding contributes when offsets grow
/// over a virtual concatenated text: the end of its last offset.
pub open spec fn last_end(e: Encoding) -> nat {
    if e.offsets@.len() == 0 {
        0
    } else {
        e.offsets@.last().1 as nat
    }
}

/// Amount by which part `i`'s offsets are shifted when offsets grow:
/// the sum of the running end-offsets of the parts before it.
pub open spec fn shift_base(parts: Seq<Encoding>, i: int) -> nat
    decreases i,
{
    if i <= 0 {
        0
    } else {
        shift_base(parts, i - 1) + last_end(parts[i - 1])
    }
}

/// `offs` with both ends of every entry shifted right by `d`.
pub open spec fn shifted_offsets(offs: Seq<Offset>, d: nat) -> Seq<Offset> {
    Seq::new(offs.len(), |j: int| (((offs[j].0 + d) as usize, (offs[j].1 + d) as usize)))
}

/// Offsets of the first `i` of `parts`, each part shifted by the running
/// end-offset of the parts before it.
pub open spec fn grown_offsets(parts: Seq<Encoding>, i: int) -> Seq<Offset>
    decreases i,
{
    if i <= 0 {
        Seq::empty()
    } else {
        grown_offsets(parts, i - 1) + shifted_offsets(
            parts[i - 1].offsets@,
            shift_base(parts, i - 1),
        )
    }
}

/// Every shifted offset stays within `usize`: the machine-limit
/// precondition of merging with growing offsets.
pub open spec fn grown_offsets_fit(parts: Seq<Encoding>) -> bool {
    forall|i: int, j: int|
        0 <= i < parts.len() && 0 <= j < parts[i].offsets@.len() ==> {
            &&& shift_base(parts, i) + (#[trigger] parts[i].offsets@[j]).0 <= usize::MAX
            &&& shift_base(parts, i) + parts[i].offsets@[j].1 <= usize::MAX
        }
}

/// The token-index ranges of the overflow chunks that truncating a
/// record of `total` tokens to `max_len` with `stride` produces, the
/// first chunk starting at `lo`: every chunk is capped at `max_len`
/// tokens, and each further chunk starts `stride` tokens before the end
/// of the previous one, duplicating that much local context.
pub open spec fn chunk_bounds(lo: int, max_len: int, stride: int, total: int) -> Seq<(int, int)>
    decreases total - lo,
    when 0 <= stride < max_len && 0 <= lo < total
{
    let hi = if lo + max_len < total {
        lo + max_len
    } else {
        total
    };
    if hi == total {
        seq![(lo, hi)]
    } else {
        seq![(lo, hi)] + chunk_bounds(hi - stride, max_len, stride, total)
    }
}

/// `c` holds exactly the tokens of `e` in the index range `b`, with no
/// overflow children and no sequence ranges of its own.
pub open spec fn chunk_matches(c: Encoding, e: Encoding, b: (int, int)) -> bool {
    &&& c.id@ == e.id@.subrange(b.0, b.1)
    &&& c.id_type@ == e.id_type@.subrange(b.0, b.1)
    &&& c.tokens.deep_view() == e.tokens.deep_view().subrange(b.0, b.1)
    &&& c.words@ == e.words@.subrange(b.0, b.1)
    &&& c.offsets@ == e.offsets@.subrange(b.0, b.1)
    &&& c.special_tokens_mask@ == e.special_tokens_mask@.subrange(b.0, b.1)
    &&& c.attention_mask@ == e.attention_mask@.subrange(b.0, b.1)
    &&& c.overflowing@.len() == 0
    &&& c.sequence_ranges@.len() == 0
}

/// The chunks of `s` under `bounds`, concatenated after removing each
/// chunk's first `stride` tokens (its duplicated context prefix).
pub open spec fn chunk_tails<T>(s: Seq<T>, bounds: Seq<(int, int)>, stride: int) -> Seq<T>
    decreases bounds.len(),
{
    if bounds.len() == 0 {
        Seq::empty()
    } else {
        s.subrange(bounds[0].0 + stride, bounds[0].1) + chunk_tails(s, bounds.skip(1), stride)
    }
}

/// Every chunk range is non-empty, lies within `total`, and still has
/// tokens after its duplicated `stride`-token prefix.
pub proof fn lemma_chunk_bounds_valid(lo: int, max_len: int, stride: int, total: int)
    requires
        0 <= stride < max_len,
        0 <= lo,
        lo + stride < total,
    ensures
        ({
            let bounds = chunk_bounds(lo, max_len, stride, total);
            forall|i: int|
                0 <= i < bounds.len() ==> 0 <= (#[trigger] bounds[i]).0
                    && bounds[i].0 + stride < bounds[i].1 <= total
        }),
    decreases total - lo,
{
    let hi = if lo + max_len < total {
        lo + max_len
    } else {
        total
    };
    if hi != total {
        lemma_chunk_bounds_valid(hi - stride, max_len, stride, total);
        let rest = chunk_bounds(hi - stride, max_len, stride, total);
        let bounds = chunk_bounds(lo, max_len, stride, total);
        assert forall|i: int| 0 <= i < bounds.len() implies 0 <= (#[trigger] bounds[i]).0
            && bounds[i].0 + stride < bounds[i].1 <= total by {
            if i > 0 {
                assert(bounds[i] == rest[i - 1]);
            }
        }
    }
}

/// The spliced chunk tails reproduce the suffix of `s` from `lo +
/// stride` on.
pub proof fn lemma_chunk_tails_cover<T>(s: Seq<T>, lo: int, max_len: int, stride: int)
    requires
        0 <= stride < max_len,
        0 <= lo,
        lo + stride < s.len(),
    ensures
        chunk_tails(s, chunk_bounds(lo, max_len, stride, s.len() as int), stride) == s.subrange(
            lo + stride,
            s.len() as int,
        ),
    decreases s.len() - lo,
{
    let total = s.len() as int;
    let hi = if lo + max_len < total {
        lo + max_len
    } else {
        total
    };
    let bounds = chunk_bounds(lo, max_len, stride, total);
    assert(0 <= stride < max_len && 0 <= lo < total);
    if hi == total {
        assert(bounds == seq![(lo, hi)]);
        assert(bounds.skip(1) =~= Seq::<(int, int)>::empty());
        assert(chunk_tails(s, bounds.skip(1), stride) == Seq::<T>::empty());
        assert(chunk_tails(s, bounds, stride) == s.subrange(lo + stride, hi) + chunk_tails(
            s,
            bounds.skip(1),
            stride,
        ));
        assert(chunk_tails(s, bounds, stride) =~= s.subrange(lo + stride, total));
    } else {
        lemma_chunk_tails_cover(s, hi - stride, max_len, stride);
        assert(bounds == seq![(lo, hi)] + chunk_bounds(hi - stride, max_len, stride, total));
        assert(bounds.skip(1) =~= chunk_bounds(hi - stride, max_len, stride, total));
        assert(bounds[0] == (lo, hi));
        assert(chunk_tails(s, bounds.skip(1), stride) == s.subrange(hi, total));
        assert(s.subrange(lo + stride, hi) + s.subrange(hi, total) =~= s.subrange(
            lo + stride,
            total,
        ));
    }
}

/// Law: truncation loses nothing. For any sequence `s` truncated to
/// `max_len` tokens with `stride` tokens of duplicated context
/// (`stride < max_len < s.len()`), the kept head concatenated with
/// every overflow chunk minus its duplicated `stride`-token prefix
/// reproduces `s` exactly, in order.
pub proof fn lemma_truncation_reconstructs<T>(s: Seq<T>, max_len: int, stride: int)
    requires
        0 <= stride < max_len < s.len(),
    ensures
        s.take(max_len) + chunk_tails(
            s,
            chunk_bounds(max_len - stride, max_len, stride, s.len() as int),
            stride,
        ) == s,
{
    lemma_chunk_tails_cover(s, max_len - stride, max_len, stride);
    assert(s.take(max_len) + s.subrange(max_len, s.len() as int) =~= s);
}

/// Total token count of the first `i` of `parts`.
pub open spec fn total_len(parts: Seq<Encoding>, i: int) -> nat
    decreases i,
{
    if i <= 0 {
        0
    } else {
        total_len(parts, i - 1) + parts[i - 1].spec_len()
    }
}

/// Copies the index range `[lo, hi)` of `src` into a fresh vector.
pub(crate) fn copy_range<T: Copy>(src: &Vec<T>, lo: usize, hi: usize) -> (r: Vec<T>)
    requires
        lo <= hi <= src@.len(),
    ensures
        r@ == src@.subrange(lo as int, hi as int),
{
    let mut r: Vec<T> = Vec::new();
    proof {
        assert(src@.subrange(lo as int, lo as int) =~= Seq::<T>::empty());
    }
    let mut j: usize = lo;
    while j < hi
        invariant
            lo <= j <= hi <= src@.len(),
            r@ == src@.subrange(lo as int, j as int),
        decreases hi - j,
    {
        r.push(src[j]);
        proof {
            assert(src@.subrange(lo as int, j as int + 1) =~= src@.subrange(
                lo as int,
                j as int,
            ).push(src@[j as int]));
        }
        j += 1;
    }
    r
}

/// Copies the index range `[lo, hi)` of a vector of byte strings into a
/// fresh vector.
pub(crate) fn copy_range_bytes(src: &Vec<Vec<u8>>, lo: usize, hi: usize) -> (r: Vec<Vec<u8>>)
    requires
        lo <= hi <= src@.len(),
    ensures
        r.deep_view() == src.deep_view().subrange(lo as int, hi as int),
        r@.len() == hi - lo,
{
    let mut r: Vec<Vec<u8>> = Vec::new();
    proof {
        assert(r.deep_view() =~= src.deep_view().subrange(lo as int, lo as int));
    }
    let mut j: usize = lo;
    while j < hi
        invariant
            lo <= j <= hi <= src@.len(),
            r@.len() == j - lo,
            r.deep_view() == src.deep_view().subrange(lo as int, j as int),
        decreases hi - j,
    {
        let ghost before = r.deep_view();
        let piece = copy_range(&src[j], 0, src[j].len());
        proof {
            assert(piece@ =~= src@[j as int]@);
        }
        r.push(piece);
        proof {
            assert(piece.deep_view() =~= piece@);
            assert(r.deep_view() =~~= before.push(src@[j as int]@));
            assert(src.deep_view()[j as int] == src@[j as int]@);
            assert(src.deep_view().subrange(lo as int, j as int + 1) =~= src.deep_view().subrange(
                lo as int,
                j as int,
            ).push(src.deep_view()[j as int]));
        }
        j += 1;
    }
    r
}

impl Encoding {
    /// Number of tokens held.
    pub open spec fn spec_len(self) -> nat {
        self.id@.len()
    }

    /// The seven parallel sequences of this record have equal length
    /// (this level only).
    pub open spec fn lens_ok(self) -> bool {
        &&& self.id_type@.len() == self.id@.len()
        &&& self.tokens@.len() == self.id@.len()
        &&& self.words@.len() == self.id@.len()
        &&& self.offsets@.len() == self.id@.len()
        &&& self.special_tokens_mask@.len() == self.id@.len()
        &&& self.attention_mask@.len() == self.id@.len()
    }

    /// Structural invariant: the seven parallel sequences have equal
    /// length here and, recursively, in every overflow child.
    pub open spec fn wf(self) -> bool
        decreases self,
    {
        &&& self.lens_ok()
        &&& forall|i: int|
            0 <= i < self.overflowing@.len() ==> (#[trigger] self.overflowing@[i]).wf()
    }

    /// Number of tokens held.
    pub fn len(&self) -> (r: usize)
        ensures
            r == self.spec_len(),
    {
        self.id.len()
    }

    /// Whether no token is held.
    pub fn is_empty(&self) -> (r: bool)
        ensures
            r == (self.spec_len() == 0),
    {
        self.id.len() == 0
    }

    /// Runtime check of the structural invariant [`Encoding::wf`].
    pub fn check_wf(&self) -> (r: bool)
        ensures
            r == self.wf(),
        decreases *self,
    {
        let lens_ok = self.id_type.len() == self.id.len() && self.tokens.len() == self.id.len()
            && self.words.len() == self.id.len() && self.offsets.len() == self.id.len()
            && self.special_tokens_mask.len() == self.id.len() && self.attention_mask.len()
            == self.id.len();
        if !lens_ok {
            return false;
        }
        let mut i: usize = 0;
        while i < self.overflowing.len()
            invariant
                self.lens_ok(),
                0 <= i <= self.overflowing@.len(),
                forall|j: int| 0 <= j < i ==> (#[trigger] self.overflowing@[j]).wf(),
            decreases self.overflowing@.len() - i,
        {
            if !self.overflowing[i].check_wf() {
                assert(!self.overflowing@[i as int].wf());
                assert(!self.wf());
                return false;
            }
            i += 1;
        }
        assert(self.wf());
        true
    }

    /// An empty encoding, with room reserved for `capacity` tokens in
    /// each of the seven parallel sequences.
    pub fn with_capacity(capacity: usize) -> (r: Self)
        ensures
            r.wf(),
            r.spec_len() == 0,
            r.overflowing@.len() == 0,
            r.sequence_ranges@.len() == 0,
    {
        Self {
            id: Vec::with_capacity(capacity),
            id_type: Vec::with_capacity(capacity),
            tokens: Vec::with_capacity(capacity),
            words: Vec::with_capacity(capacity),
            offsets: Vec::with_capacity(capacity),
            special_tokens_mask: Vec::with_capacity(capacity),
            attention_mask: Vec::with_capacity(capacity),
            overflowing: Vec::new(),
            sequence_ranges: Vec::new(),
        }
    }

    /// Constructs an encoding from fully supplied sequences.
    ///
    /// Succeeds if and only if the seven parallel sequences have equal
    /// length and every supplied overflow child is itself well-formed;
    /// otherwise the structural-invariant error is returned and nothing
    /// is silently truncated or padded.
    pub fn new(
        id: Vec<u32>,
        id_type: Vec<u32>,
        tokens: Vec<Vec<u8>>,
        words: Vec<Option<u32>>,
        offsets: Vec<Offset>,
        special_tokens_mask: Vec<u32>,
        attention_mask: Vec<u32>,
        overflowing: Vec<Encoding>,
        sequence_ranges: Vec<(usize, usize)>,
    ) -> (r: Result<Self, TokenizerError>)
        ensures
            ({
                let e = Encoding {
                    id,
                    id_type,
                    tokens,
                    words,
                    offsets,
                    special_tokens_mask,
                    attention_mask,
                    overflowing,
                    sequence_ranges,
                };
                match r {
                    Ok(built) => built == e && e.wf(),
                    Err(err) => err == TokenizerError::MismatchedLengths && !e.wf(),
                }
            }),
    {
        let e = Encoding {
            id,
            id_type,
            tokens,
            words,
            offsets,
            special_tokens_mask,
            attention_mask,
            overflowing,
            sequence_ranges,
        };
        if e.check_wf() {
            Ok(e)
        } else {
            Err(TokenizerError::MismatchedLengths)
        }
    }

    /// Concatenates an ordered sequence of encodings into one.
    ///
    /// `sequence_ranges` of the result records, per input index, the
    /// contiguous token-index range that input occupies. With
    /// `growing_offsets` each subsequent part's offsets are shifted by
    /// the running end-offset of the parts before it, so offsets stay
    /// monotone over a virtual concatenated text; without it every
    /// part's offsets are kept verbatim. The parts' own overflow
    /// children and sequence ranges are not carried over.
    pub fn merge(parts: Vec<Encoding>, growing_offsets: bool) -> (r: Encoding)
        requires
            forall|i: int| 0 <= i < parts@.len() ==> (#[trigger] parts@[i]).lens_ok(),
            growing_offsets ==> grown_offsets_fit(parts@),
        ensures
            r.wf(),
            r.overflowing@.len() == 0,
            r.id@ == cat_id(parts@, parts@.len() as int),
            r.id_type@ == cat_id_type(parts@, parts@.len() as int),
            r.tokens.deep_view() == cat_tokens(parts@, parts@.len() as int),
            r.words@ == cat_words(parts@, parts@.len() as int),
            r.special_tokens_mask@ == cat_special(parts@, parts@.len() as int),
            r.attention_mask@ == cat_attention(parts@, parts@.len() as int),
            r.offsets@ == if growing_offsets {
                grown_offsets(parts@, parts@.len() as int)
            } else {
                cat_offsets(parts@, parts@.len() as int)
            },
            r.sequence_ranges@.len() == parts@.len(),
            forall|i: int|
                0 <= i < parts@.len() ==> #[trigger] r.sequence_ranges@[i] == ((
                total_len(parts@, i) as usize,
                total_len(parts@, i + 1) as usize,
                )),
            r.spec_len() == total_len(parts@, parts@.len() as int),
    {
        let ghost gparts = parts@;
        let mut rest = parts;
        let nparts = rest.len();
        proof {
            assert(nparts == gparts.len());
            assert(rest@ =~= gparts.skip(0));
        }
        let mut r = Encoding::with_capacity(0);
        let mut k: usize = 0;
        let mut delta: usize = 0;
        while rest.len() > 0
            invariant
                gparts.len() <= usize::MAX,
                k + rest@.len() == gparts.len(),
                rest@ == gparts.skip(k as int),
                forall|i: int| 0 <= i < gparts.len() ==> (#[trigger] gparts[i]).lens_ok(),
                growing_offsets ==> grown_offsets_fit(gparts),
                r.lens_ok(),
                r.overflowing@.len() == 0,
                r.id@ == cat_id(gparts, k as int),
                r.id_type@ == cat_id_type(gparts, k as int),
                r.tokens.deep_view() == cat_tokens(gparts, k as int),
                r.words@ == cat_words(gparts, k as int),
                r.special_tokens_mask@ == cat_special(gparts, k as int),
                r.attention_mask@ == cat_attention(gparts, k as int),
                r.offsets@ == if growing_offsets {
                    grown_offsets(gparts, k as int)
                } else {
                    cat_offsets(gparts, k as int)
                },
                r.sequence_ranges@.len() == k,
                forall|i: int|
                    0 <= i < k ==> #[trigger] r.sequence_ranges@[i] == ((
                    total_len(gparts, i) as usize,
                    total_len(gparts, i + 1) as usize,
                    )),
                r.spec_len() == total_len(gparts, k as int),
                growing_offsets ==> delta == shift_base(gparts, k as int),
            decreases rest@.len(),
        {
            let mut part = rest.remove(0);
            proof {
                assert(part == gparts[k as int]);
                assert(rest@ =~= gparts.skip(k as int + 1));
            }
            let start = r.id.len();
            let part_last_end = if part.offsets.len() == 0 {
                0
            } else {
                part.offsets[part.offsets.len() - 1].1
            };
            proof {
                assert(part_last_end == last_end(gparts[k as int]));
            }
            r.id.append(&mut part.id);
            r.id_type.append(&mut part.id_type);
            r.words.append(&mut part.words);
            r.special_tokens_mask.append(&mut part.special_tokens_mask);
            r.attention_mask.append(&mut part.attention_mask);
            let ghost toks_before = r.tokens.deep_view();
            let ghost part_toks = part.tokens.deep_view();
            r.tokens.append(&mut part.tokens);
            proof {
                assert(r.tokens.deep_view() =~= toks_before + part_toks);
            }
            if growing_offsets {
                let mut j: usize = 0;
                let ghost gr = r;
                while j < part.offsets.len()
                    invariant
                        growing_offsets,
                        grown_offsets_fit(gparts),
                        0 <= k < gparts.len(),
                        part.offsets@ == gparts[k as int].offsets@,
                        delta == shift_base(gparts, k as int),
                        0 <= j <= part.offsets@.len(),
                        r.id == gr.id,
                        r.id_type == gr.id_type,
                        r.tokens == gr.tokens,
                        r.words == gr.words,
                        r.special_tokens_mask == gr.special_tokens_mask,
                        r.attention_mask == gr.attention_mask,
                        r.overflowing == gr.overflowing,
                        r.sequence_ranges == gr.sequence_ranges,
                        r.offsets@ == gr.offsets@ + shifted_offsets(part.offsets@, delta as nat)
                            .take(j as int),
                    decreases part.offsets@.len() - j,
                {
                    let o = part.offsets[j];
                    proof {
                        assert(gparts[k as int].offsets@[j as int] == o);
                    }
                    r.offsets.push((o.0 + delta, o.1 + delta));
                    proof {
                        assert(shifted_offsets(part.offsets@, delta as nat).take(j + 1)
                            =~= shifted_offsets(part.offsets@, delta as nat).take(j as int).push(
                            ((o.0 + delta) as usize, (o.1 + delta) as usize)));
                    }
                    j += 1;
                }
                proof {
                    assert(shifted_offsets(part.offsets@, delta as nat).take(
                        part.offsets@.len() as int) =~= shifted_offsets(
                        part.offsets@,
                        delta as nat,
                    ));
                }
                delta = delta + part_last_end;
            } else {
                r.offsets.append(&mut part.offsets);
            }
            let end = r.id.len();
            r.sequence_ranges.push((start, end));
            k += 1;
        }
        proof {
            assert(gparts.skip(gparts.len() as int) =~= Seq::<Encoding>::empty());
            assert(k as int == gparts.len());
        }
        r
    }

    /// Truncates to at most `max_len` tokens, moving the remainder into
    /// overflow chunks.
    ///
    /// Rejected outright when `max_len == 0` or `stride >= max_len`:
    /// clamping would misrepresent the requested windowing. A no-op when
    /// the record already fits. Otherwise the first `max_len` tokens
    /// stay in place and the rest move into overflow children, each
    /// capped at `max_len` tokens and each starting with the last
    /// `stride` tokens of the previous chunk (or of the kept head), as
    /// [`chunk_bounds`] lays out. Any previous overflow children are
    /// replaced; `sequence_ranges` is left as it was.
    pub fn truncate(&mut self, max_len: usize, stride: usize) -> (r: Result<(), TokenizerError>)
        requires
            old(self).wf(),
        ensures
            final(self).wf(),
            match r {
                Err(e) => {
                    &&& e == TokenizerError::InvalidTruncation
                    &&& (max_len == 0 || stride >= max_len)
                    &&& *final(self) == *old(self)
                },
                Ok(u) => {
                    &&& max_len > 0
                    &&& stride < max_len
                    &&& if old(self).spec_len() <= max_len {
                        *final(self) == *old(self)
                    } else {
                        let bounds = chunk_bounds(
                            max_len - stride,
                            max_len as int,
                            stride as int,
                            old(self).spec_len() as int,
                        );
                        &&& final(self).id@ == old(self).id@.take(max_len as int)
                        &&& final(self).id_type@ == old(self).id_type@.take(max_len as int)
                        &&& final(self).tokens.deep_view() == old(self).tokens.deep_view().take(
                            max_len as int,
                        )
                        &&& final(self).words@ == old(self).words@.take(max_len as int)
                        &&& final(self).offsets@ == old(self).offsets@.take(max_len as int)
                        &&& final(self).special_tokens_mask@ == old(
                            self,
                        ).special_tokens_mask@.take(max_len as int)
                        &&& final(self).attention_mask@ == old(self).attention_mask@.take(
                            max_len as int,
                        )
                        &&& final(self).sequence_ranges@ == old(self).sequence_ranges@
                        &&& final(self).overflowing@.len() == bounds.len()
                        &&& forall|i: int|
                            0 <= i < bounds.len() ==> chunk_matches(
                                #[trigger] final(self).overflowing@[i],
                                *old(self),
                                bounds[i],
                            )
                    }
                },
            },
    {
        if max_len == 0 || stride >= max_len {
            return Err(TokenizerError::InvalidTruncation);
        }
        let total = self.id.len();
        if total <= max_len {
            return Ok(());
        }
        let ghost ge = *self;
        let ghost gtotal = total as int;
        let ghost bounds = chunk_bounds(max_len - stride, max_len as int, stride as int, gtotal);
        let mut chunks: Vec<Encoding> = Vec::new();
        let ghost mut gdone: Seq<(int, int)> = Seq::empty();
        let mut lo: usize = max_len - stride;
        proof {
            assert(gdone + chunk_bounds(lo as int, max_len as int, stride as int, gtotal)
                =~= bounds);
        }
        loop
            invariant_except_break
                *self == ge,
                ge.wf(),
                stride < max_len,
                (max_len as int) < gtotal,
                gtotal == ge.spec_len(),
                gtotal == total,
                0 <= lo as int,
                lo as int + stride < gtotal,
                bounds == gdone + chunk_bounds(lo as int, max_len as int, stride as int, gtotal),
                chunks@.len() == gdone.len(),
                forall|i: int|
                    0 <= i < gdone.len() ==> chunk_matches(#[trigger] chunks@[i], ge, gdone[i]),
            ensures
                *self == ge,
                chunks@.len() == bounds.len(),
                forall|i: int|
                    0 <= i < bounds.len() ==> chunk_matches(#[trigger] chunks@[i], ge, bounds[i]),
            decreases gtotal - lo,
        {
            let hi = if total - lo > max_len {
                lo + max_len
            } else {
                total
            };
            let c = Encoding {
                id: copy_range(&self.id, lo, hi),
                id_type: copy_range(&self.id_type, lo, hi),
                tokens: copy_range_bytes(&self.tokens, lo, hi),
                words: copy_range(&self.words, lo, hi),
                offsets: copy_range(&self.offsets, lo, hi),
                special_tokens_mask: copy_range(&self.special_tokens_mask, lo, hi),
                attention_mask: copy_range(&self.attention_mask, lo, hi),
                overflowing: Vec::new(),
                sequence_ranges: Vec::new(),
            };
            chunks.push(c);
            proof {
                gdone = gdone + seq![(lo as int, hi as int)];
            }
            if hi == total {
                proof {
                    assert(chunk_bounds(lo as int, max_len as int, stride as int, gtotal)
                        =~= seq![(lo as int, hi as int)]);
                    assert(bounds =~= gdone);
                }
                break;
            }
            proof {
                assert(chunk_bounds(lo as int, max_len as int, stride as int, gtotal) =~= seq![
                    (lo as int, hi as int),
                ] + chunk_bounds(hi as int - stride, max_len as int, stride as int, gtotal));
                assert(bounds =~= gdone + chunk_bounds(
                    hi as int - stride,
                    max_len as int,
                    stride as int,
                    gtotal,
                ));
            }
            lo = hi - stride;
        }
        self.overflowing = chunks;
        self.id.truncate(max_len);
        self.id_type.truncate(max_len);
        let ghost toks_full = self.tokens.deep_view();
        self.tokens.truncate(max_len);
        proof {
            assert(self.tokens.deep_view() =~= toks_full.take(max_len as int));
        }
        self.words.truncate(max_len);
        self.offsets.truncate(max_len);
        self.special_tokens_mask.truncate(max_len);
        self.attention_mask.truncate(max_len);
        proof {
            lemma_chunk_bounds_valid(max_len - stride, max_len as int, stride as int, gtotal);
            assert(ge.tokens.deep_view().len() == ge.tokens@.len());
            assert forall|i: int|
                0 <= i < self.overflowing@.len() implies (#[trigger] self.overflowing@[i]).wf() by {
                let c = self.overflowing@[i];
                assert(chunk_matches(c, ge, bounds[i]));
                assert(c.tokens@.len() == c.tokens.deep_view().len());
                assert(c.lens_ok());
            }
            assert(self.id@ == ge.id@.take(max_len as int));
        }
        Ok(())
    }

    /// Pads (or, per `direction`, prepends) synthetic tokens until the
    /// record holds `target_len` tokens; a no-op when it already holds
    /// that many or more.
    ///
    /// Padding entries carry `pad_id`, `pad_type_id` and `pad_token`,
    /// with `attention_mask = 0`, `offsets = (0, 0)`, `words = None` and
    /// `special_tokens_mask = 0`. Overflow children and
    /// `sequence_ranges` are left as they are.
    pub fn pad(
        &mut self,
        target_len: usize,
        pad_id: u32,
        pad_type_id: u32,
        pad_token: &Vec<u8>,
        direction: PadDirection,
    )
        requires
            old(self).wf(),
        ensures
            final(self).wf(),
            old(self).spec_len() >= target_len ==> *final(self) == *old(self),
            old(self).spec_len() < target_len ==> {
                let n = target_len - old(self).spec_len();
                let pad_ids = Seq::<u32>::new(n as nat, |i: int| pad_id);
                let pad_types = Seq::<u32>::new(n as nat, |i: int| pad_type_id);
                let pad_toks = Seq::<Seq<u8>>::new(n as nat, |i: int| pad_token@);
                let pad_words = Seq::<Option<u32>>::new(n as nat, |i: int| None::<u32>);
                let pad_offs = Seq::<Offset>::new(n as nat, |i: int| (0usize, 0usize));
                let pad_zero = Seq::<u32>::new(n as nat, |i: int| 0u32);
                &&& final(self).spec_len() == target_len
                &&& final(self).overflowing@ == old(self).overflowing@
                &&& final(self).sequence_ranges@ == old(self).sequence_ranges@
                &&& match direction {
                    PadDirection::Right => {
                        &&& final(self).id@ == old(self).id@ + pad_ids
                        &&& final(self).id_type@ == old(self).id_type@ + pad_types
                        &&& final(self).tokens.deep_view() == old(self).tokens.deep_view()
                            + pad_toks
                        &&& final(self).words@ == old(self).words@ + pad_words
                        &&& final(self).offsets@ == old(self).offsets@ + pad_offs
                        &&& final(self).special_tokens_mask@ == old(self).special_tokens_mask@
                            + pad_zero
                        &&& final(self).attention_mask@ == old(self).attention_mask@ + pad_zero
                    },
                    PadDirection::Left => {
                        &&& final(self).id@ == pad_ids + old(self).id@
                        &&& final(self).id_type@ == pad_types + old(self).id_type@
                        &&& final(self).tokens.deep_view() == pad_toks + old(
                            self,
                        ).tokens.deep_view()
                        &&& final(self).words@ == pad_words + old(self).words@
                        &&& final(self).offsets@ == pad_offs + old(self).offsets@
                        &&& final(self).special_tokens_mask@ == pad_zero + old(
                            self,
                        ).special_tokens_mask@
                        &&& final(self).attention_mask@ == pad_zero + old(self).attention_mask@
                    },
                }
            },
    {
        let start_len = self.id.len();
        if start_len >= target_len {
            return ;
        }
        let n = target_len - start_len;
        let mut pad_ids: Vec<u32> = Vec::new();
        let mut pad_types: Vec<u32> = Vec::new();
        let mut pad_toks: Vec<Vec<u8>> = Vec::new();
        let mut pad_words: Vec<Option<u32>> = Vec::new();
        let mut pad_offs: Vec<Offset> = Vec::new();
        let mut pad_special: Vec<u32> = Vec::new();
        let mut pad_attention: Vec<u32> = Vec::new();
        let mut j: usize = 0;
        while j < n
            invariant
                0 <= j <= n,
                pad_ids@ =~= Seq::<u32>::new(j as nat, |i: int| pad_id),
                pad_types@ =~= Seq::<u32>::new(j as nat, |i: int| pad_type_id),
                pad_toks.deep_view() =~= Seq::<Seq<u8>>::new(j as nat, |i: int| pad_token@),
                pad_words@ =~= Seq::<Option<u32>>::new(j as nat, |i: int| None::<u32>),
                pad_offs@ =~= Seq::<Offset>::new(j as nat, |i: int| (0usize, 0usize)),
                pad_special@ =~= Seq::<u32>::new(j as nat, |i: int| 0u32),
                pad_attention@ =~= Seq::<u32>::new(j as nat, |i: int| 0u32),
            decreases n - j,
        {
            let ghost toks_before = pad_toks.deep_view();
            pad_ids.push(pad_id);
            pad_types.push(pad_type_id);
            let piece = copy_range(pad_token, 0, pad_token.len());
            proof {
                assert(piece@ =~= pad_token@);
            }
            pad_toks.push(piece);
            pad_words.push(None);
            pad_offs.push((0, 0));
            pad_special.push(0);
            pad_attention.push(0);
            proof {
                assert(piece.deep_view() =~= piece@);
                assert(pad_toks.deep_view() =~~= toks_before.push(pad_token@));
            }
            j += 1;
        }
        match direction {
            PadDirection::Right => {
                self.id.append(&mut pad_ids);
                self.id_type.append(&mut pad_types);
                let ghost toks_old = self.tokens.deep_view();
                let ghost toks_pad = pad_toks.deep_view();
                self.tokens.append(&mut pad_toks);
                proof {
                    assert(self.tokens.deep_view() =~= toks_old + toks_pad);
                }
                self.words.append(&mut pad_words);
                self.offsets.append(&mut pad_offs);
                self.special_tokens_mask.append(&mut pad_special);
                self.attention_mask.append(&mut pad_attention);
            },
            PadDirection::Left => {
                pad_ids.append(&mut self.id);
                self.id = pad_ids;
                pad_types.append(&mut self.id_type);
                self.id_type = pad_types;
                let ghost toks_old = self.tokens.deep_view();
                let ghost toks_pad = pad_toks.deep_view();
                pad_toks.append(&mut self.tokens);
                self.tokens = pad_toks;
                proof {
                    assert(self.tokens.deep_view() =~= toks_pad + toks_old);
                }
                pad_words.append(&mut self.words);
                self.words = pad_words;
                pad_offs.append(&mut self.offsets);
                self.offsets = pad_offs;
                pad_special.append(&mut self.special_tokens_mask);
                self.special_tokens_mask = pad_special;
                pad_attention.append(&mut self.attention_mask);
                self.attention_mask = pad_attention;
            },
        }
    }
}

/// Which side of the record padding is added on.
#[derive(Debug, Clone, Copy, PartialEq, Eq, Structural)]
pub enum PadDirection {
    Left,
    Right,
}

/// One row of an encoding record: id, segment id, surface, word
/// index, offsets (as mathematical integers), special mask, attention
/// mask.
pub type EncodeRow = (u32, u32, Seq<u8>, Option<u32>, (int, int), u32, u32);

/// The record holds exactly these rows: all seven parallel sequences
/// agree with them entrywise.
pub open spec fn rows_match(e: Encoding, rows: Seq<EncodeRow>) -> bool {
    &&& e.id@.len() == rows.len()
    &&& e.id_type@.len() == rows.len()
    &&& e.tokens@.len() == rows.len()
    &&& e.words@.len() == rows.len()
    &&& e.offsets@.len() == rows.len()
    &&& e.special_tokens_mask@.len() == rows.len()
    &&& e.attention_mask@.len() == rows.len()
    &&& forall|i: int|
        0 <= i < rows.len() ==> {
            let row = #[trigger] rows[i];
            &&& e.id@[i] == row.0
            &&& e.id_type@[i] == row.1
            &&& e.tokens.deep_view()[i] == row.2
            &&& e.words@[i] == row.3
            &&& e.offsets@[i].0 == row.4.0
            &&& e.offsets@[i].1 == row.4.1
            &&& e.special_tokens_mask@[i] == row.5
            &&& e.attention_mask@[i] == row.6
        }
}

/// The rows a record holds: its seven parallel sequences, entrywise.
pub open spec fn encoding_rows(e: Encoding) -> Seq<EncodeRow> {
    Seq::new(
        e.id@.len(),
        |i: int|
            (
                e.id@[i],
                e.id_type@[i],
                e.tokens.deep_view()[i],
                e.words@[i],
                (e.offsets@[i].0 as int, e.offsets@[i].1 as int),
                e.special_tokens_mask@[i],
                e.attention_mask@[i],
            ),
    )
}

/// A record with equal-length parallel sequences matches its own rows.
pub proof fn lemma_encoding_rows_match(e: Encoding)
    requires
        e.lens_ok(),
    ensures
        rows_match(e, encoding_rows(e)),
{
}

} // verus!
