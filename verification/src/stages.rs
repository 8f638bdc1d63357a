//! The pluggable pipeline stages: capability traits for normalization,
//! pre-splitting, subword segmentation, post-processing and decoding,
//! each with an explicit identity implementation used when a stage is
//! absent.

use vstd::prelude::*;

use crate::encoding::encoding_rows;
use crate::encoding::rows_match;
use crate::encoding::EncodeRow;
use crate::encoding::Encoding;

verus! {

/// The alignment map is as long as the normalized text and every entry
/// is a well-formed range within the original text.
pub open spec fn alignment_ok(orig: Seq<u8>, norm: Seq<u8>, align: Seq<(usize, usize)>) -> bool {
    &&& align.len() == norm.len()
    &&& forall|i: int| 0 <= i < align.len() ==> (#[trigger] align[i]).0 <= align[i].1 <= orig.len()
}

/// Text normalization with offset alignment back to the original text.
pub trait Normalizer: Sized {
    /// The normalized text and its alignment map: entry `i` is the
    /// half-open byte range of the original text that normalized byte
    /// `i` came from.
    spec fn spec_normalize(&self, text: Seq<u8>) -> (Seq<u8>, Seq<(usize, usize)>);

    /// Every normalizer must keep its alignment map well-formed.
    proof fn normalize_alignment_ok(&self, text: Seq<u8>)
        requires
            text.len() <= usize::MAX,
        ensures
            alignment_ok(text, self.spec_normalize(text).0, self.spec_normalize(text).1),
    ;

    fn normalize(&self, text: &Vec<u8>) -> (r: (Vec<u8>, Vec<(usize, usize)>))
        ensures
            r.0@ == self.spec_normalize(text@).0,
            r.1@ == self.spec_normalize(text@).1,
    ;
}

/// The identity normalization: text unchanged, byte `i` aligned to
/// `(i, i + 1)`.
pub struct IdentityNormalizer;

impl Normalizer for IdentityNormalizer {
    open spec fn spec_normalize(&self, text: Seq<u8>) -> (Seq<u8>, Seq<(usize, usize)>) {
        (text, Seq::new(text.len(), |i: int| ((i as usize, (i + 1) as usize))))
    }

    proof fn normalize_alignment_ok(&self, text: Seq<u8>) {
    }

    fn normalize(&self, text: &Vec<u8>) -> (r: (Vec<u8>, Vec<(usize, usize)>)) {
        let n = text.len();
        let copy = crate::encoding::copy_range(text, 0, n);
        let mut align: Vec<(usize, usize)> = Vec::new();
        let mut i: usize = 0;
        while i < n
            invariant
                0 <= i <= n,
                n == text@.len(),
                align@ =~= Seq::new(i as nat, |k: int| ((k as usize, (k + 1) as usize))),
            decreases n - i,
        {
            align.push((i, i + 1));
            i += 1;
        }
        proof {
            assert(copy@ =~= text@);
            assert(align@ =~= self.spec_normalize(text@).1);
        }
        (copy, align)
    }
}

/// One piece produced by pre-splitting: a substring of the text and the
/// half-open byte range it came from.
#[derive(Debug)]
pub struct Piece {
    pub bytes: Vec<u8>,
    pub span: (usize, usize),
}

/// The mathematical content of one piece.
pub open spec fn piece_view(p: Piece) -> (Seq<u8>, (usize, usize)) {
    (p.bytes@, p.span)
}

/// Every piece is the substring of `text` that its span claims.
pub open spec fn pieces_ok(text: Seq<u8>, pieces: Seq<(Seq<u8>, (usize, usize))>) -> bool {
    forall|i: int|
        0 <= i < pieces.len() ==> {
            let sp = (#[trigger] pieces[i]).1;
            &&& sp.0 <= sp.1 <= text.len()
            &&& pieces[i].0 == text.subrange(sp.0 as int, sp.1 as int)
        }
}

/// Coarse pre-splitting of ordinary text into pieces.
pub trait PreTokenizer: Sized {
    /// The ordered pieces and their source ranges.
    spec fn spec_pre_tokenize(&self, text: Seq<u8>) -> Seq<(Seq<u8>, (usize, usize))>;

    /// Every pre-tokenizer returns true substrings of its input.
    proof fn pre_tokenize_pieces_ok(&self, text: Seq<u8>)
        requires
            text.len() <= usize::MAX,
        ensures
            pieces_ok(text, self.spec_pre_tokenize(text)),
    ;

    fn pre_tokenize(&self, text: &Vec<u8>) -> (r: Vec<Piece>)
        ensures
            r@.map_values(|p: Piece| piece_view(p)) == self.spec_pre_tokenize(text@),
    ;
}

/// The identity pre-splitting: one piece covering the whole text.
pub struct IdentityPreTokenizer;

impl PreTokenizer for IdentityPreTokenizer {
    open spec fn spec_pre_tokenize(&self, text: Seq<u8>) -> Seq<(Seq<u8>, (usize, usize))> {
        seq![(text, (0usize, text.len() as usize))]
    }

    proof fn pre_tokenize_pieces_ok(&self, text: Seq<u8>) {
        assert(text.subrange(0, text.len() as int) =~= text);
    }

    fn pre_tokenize(&self, text: &Vec<u8>) -> (r: Vec<Piece>) {
        let n = text.len();
        let bytes = crate::encoding::copy_range(text, 0, n);
        proof {
            assert(bytes@ =~= text@);
        }
        let mut r: Vec<Piece> = Vec::new();
        r.push(Piece { bytes, span: (0, n) });
        proof {
            assert(r@.map_values(|p: Piece| piece_view(p)) =~= self.spec_pre_tokenize(text@));
        }
        r
    }
}

/// One token produced by subword segmentation of a piece: surface
/// bytes, id, and the half-open byte range within the piece.
#[derive(Debug)]
pub struct ModelToken {
    pub surface: Vec<u8>,
    pub id: u32,
    pub span: (usize, usize),
}

/// The mathematical content of one model token.
pub open spec fn model_token_view(t: ModelToken) -> (Seq<u8>, u32, (usize, usize)) {
    (t.surface@, t.id, t.span)
}

/// Every token's span is a well-formed range within the piece.
pub open spec fn segmentation_ok(piece: Seq<u8>, toks: Seq<(Seq<u8>, u32, (usize, usize))>) -> bool {
    forall|i: int|
        0 <= i < toks.len() ==> (#[trigger] toks[i]).2.0 <= toks[i].2.1 <= piece.len()
}

/// The mandatory vocabulary and subword-segmentation capability.
pub trait Model: Sized {
    /// Segmentation: the ordered tokens of a piece.
    spec fn spec_segment(&self, piece: Seq<u8>) -> Seq<(Seq<u8>, u32, (usize, usize))>;

    /// Surface-to-id lookup.
    spec fn spec_token_to_id(&self, token: Seq<u8>) -> Option<u32>;

    /// Id-to-surface lookup.
    spec fn spec_id_to_token(&self, id: u32) -> Option<Seq<u8>>;

    /// Every model segments a piece into tokens with spans inside it.
    proof fn segment_ok(&self, piece: Seq<u8>)
        requires
            piece.len() <= usize::MAX,
        ensures
            segmentation_ok(piece, self.spec_segment(piece)),
    ;

    fn segment(&self, piece: &Vec<u8>) -> (r: Vec<ModelToken>)
        ensures
            r@.map_values(|t: ModelToken| model_token_view(t)) == self.spec_segment(piece@),
    ;

    fn token_to_id(&self, token: &Vec<u8>) -> (r: Option<u32>)
        ensures
            r == self.spec_token_to_id(token@),
    ;

    fn id_to_token(&self, id: u32) -> (r: Option<Vec<u8>>)
        ensures
            r is Some <==> self.spec_id_to_token(id) is Some,
            r is Some ==> r.unwrap()@ == self.spec_id_to_token(id).unwrap(),
    ;
}

/// Where `content` first occurs in an ordered vocabulary at or after
/// index `i`.
pub open spec fn find_bytes(vs: Seq<Seq<u8>>, content: Seq<u8>, i: int) -> Option<int>
    decreases vs.len() - i,
    when 0 <= i
{
    if i >= vs.len() {
        Option::None
    } else if vs[i] == content {
        Option::Some(i)
    } else {
        find_bytes(vs, content, i + 1)
    }
}

/// A minimal model: every piece is one token, its id looked up in an
/// ordered vocabulary, with a fallback id for unknown pieces.
pub struct PieceModel {
    pub vocab: Vec<Vec<u8>>,
    pub fallback_id: u32,
}

impl Model for PieceModel {
    open spec fn spec_segment(&self, piece: Seq<u8>) -> Seq<(Seq<u8>, u32, (usize, usize))> {
        if piece.len() == 0 {
            Seq::empty()
        } else {
            let id = match find_bytes(self.vocab.deep_view(), piece, 0) {
                Option::Some(j) => j as u32,
                Option::None => self.fallback_id,
            };
            seq![(piece, id, (0usize, piece.len() as usize))]
        }
    }

    open spec fn spec_token_to_id(&self, token: Seq<u8>) -> Option<u32> {
        match find_bytes(self.vocab.deep_view(), token, 0) {
            Option::Some(j) => Option::Some(j as u32),
            Option::None => Option::None,
        }
    }

    open spec fn spec_id_to_token(&self, id: u32) -> Option<Seq<u8>> {
        if (id as int) < self.vocab.deep_view().len() {
            Option::Some(self.vocab.deep_view()[id as int])
        } else {
            Option::None
        }
    }

    proof fn segment_ok(&self, piece: Seq<u8>) {
    }

    fn segment(&self, piece: &Vec<u8>) -> (r: Vec<ModelToken>) {
        let mut r: Vec<ModelToken> = Vec::new();
        let n = piece.len();
        if n > 0 {
            let surface = crate::encoding::copy_range(piece, 0, n);
            proof {
                assert(surface@ =~= piece@);
            }
            let id = match self.token_to_id(piece) {
                Option::Some(j) => j,
                Option::None => self.fallback_id,
            };
            r.push(ModelToken { surface, id, span: (0, n) });
        }
        proof {
            assert(r@.map_values(|t: ModelToken| model_token_view(t)) =~= self.spec_segment(
                piece@));
        }
        r
    }

    fn token_to_id(&self, token: &Vec<u8>) -> (r: Option<u32>) {
        let mut i: usize = 0;
        let n = self.vocab.len();
        while i < n
            invariant
                0 <= i <= n,
                n == self.vocab@.len(),
                find_bytes(self.vocab.deep_view(), token@, 0) == find_bytes(
                    self.vocab.deep_view(),
                    token@,
                    i as int,
                ),
            decreases n - i,
        {
            if crate::vocab::bytes_equal(&self.vocab[i], token) {
                proof {
                    assert(self.vocab.deep_view()[i as int] == self.vocab@[i as int]@);
                }
                return Some(i as u32);
            }
            proof {
                assert(self.vocab.deep_view()[i as int] == self.vocab@[i as int]@);
            }
            i += 1;
        }
        None
    }

    fn id_to_token(&self, id: u32) -> (r: Option<Vec<u8>>) {
        if (id as usize) < self.vocab.len() {
            let idx = id as usize;
            let surface = crate::encoding::copy_range(&self.vocab[idx], 0, self.vocab[idx].len());
            proof {
                assert(surface@ =~= self.vocab@[id as int]@);
                assert(self.vocab.deep_view()[id as int] == self.vocab@[id as int]@);
            }
            Some(surface)
        } else {
            None
        }
    }
}

/// Joining decoded surface tokens back into text.
pub trait Decoder: Sized {
    /// The text the decoder builds from the given surface tokens.
    spec fn spec_decode(&self, tokens: Seq<Seq<u8>>) -> Seq<u8>;

    fn decode(&self, tokens: &Vec<Vec<u8>>) -> (r: Vec<u8>)
        ensures
            r@ == self.spec_decode(tokens.deep_view()),
    ;
}

/// The identity decoding: plain concatenation of the surface tokens.
pub struct IdentityDecoder;

/// Plain concatenation of byte strings.
pub open spec fn concat_bytes(tokens: Seq<Seq<u8>>, i: int) -> Seq<u8>
    decreases i,
{
    if i <= 0 {
        Seq::empty()
    } else {
        concat_bytes(tokens, i - 1) + tokens[i - 1]
    }
}

impl Decoder for IdentityDecoder {
    open spec fn spec_decode(&self, tokens: Seq<Seq<u8>>) -> Seq<u8> {
        concat_bytes(tokens, tokens.len() as int)
    }

    fn decode(&self, tokens: &Vec<Vec<u8>>) -> (r: Vec<u8>) {
        let mut r: Vec<u8> = Vec::new();
        let mut i: usize = 0;
        proof {
            assert(r@ =~= concat_bytes(tokens.deep_view(), 0));
        }
        while i < tokens.len()
            invariant
                0 <= i <= tokens@.len(),
                r@ == concat_bytes(tokens.deep_view(), i as int),
            decreases tokens@.len() - i,
        {
            let ghost before = r@;
            let piece = &tokens[i];
            let mut j: usize = 0;
            while j < piece.len()
                invariant
                    0 <= j <= piece@.len(),
                    piece@ == tokens@[i as int]@,
                    0 <= i < tokens@.len(),
                    r@ == before + piece@.take(j as int),
                decreases piece@.len() - j,
            {
                r.push(piece[j]);
                proof {
                    assert(piece@.take(j as int + 1) =~= piece@.take(j as int).push(
                        piece@[j as int]));
                }
                j += 1;
            }
            proof {
                assert(piece@.take(piece@.len() as int) =~= piece@);
                assert(tokens.deep_view()[i as int] == tokens@[i as int]@);
                assert(r@ == concat_bytes(tokens.deep_view(), i as int + 1));
            }
            i += 1;
        }
        r
    }
}

/// Final assembly of one or two encodings into the returned record.
pub trait PostProcessor: Sized {
    /// How many special tokens assembly adds, for truncation budgeting.
    spec fn spec_added_specials(&self, is_pair: bool) -> nat;

    /// The rows of the assembled record.
    spec fn spec_process_rows(&self, encoding: Encoding, pair: Option<Encoding>) -> Seq<EncodeRow>;

    /// The sequence ranges of the assembled record.
    spec fn spec_process_ranges(&self, encoding: Encoding, pair: Option<Encoding>) -> Seq<
        (usize, usize),
    >;

    fn added_specials(&self, is_pair: bool) -> (r: usize)
        ensures
            r == self.spec_added_specials(is_pair),
    ;

    /// Assembles the final record: well-formed, holding exactly the
    /// rows and sequence ranges the two spec functions lay out.
    fn process(&self, encoding: Encoding, pair: Option<Encoding>) -> (r: Encoding)
        requires
            encoding.wf(),
            pair is Some ==> pair.unwrap().wf(),
        ensures
            r.wf(),
            rows_match(r, self.spec_process_rows(encoding, pair)),
            r.sequence_ranges@ == self.spec_process_ranges(encoding, pair),
    ;
}

/// The identity assembly: a single sequence is returned unchanged; a
/// pair is concatenated with no inserted specials, `sequence_ranges`
/// recording the two inputs.
pub struct IdentityPostProcessor;

impl PostProcessor for IdentityPostProcessor {
    open spec fn spec_added_specials(&self, is_pair: bool) -> nat {
        0
    }

    open spec fn spec_process_rows(&self, encoding: Encoding, pair: Option<Encoding>) -> Seq<
        EncodeRow,
    > {
        match pair {
            Option::None => encoding_rows(encoding),
            Option::Some(p) => encoding_rows(encoding) + encoding_rows(p),
        }
    }

    open spec fn spec_process_ranges(&self, encoding: Encoding, pair: Option<Encoding>) -> Seq<
        (usize, usize),
    > {
        match pair {
            Option::None => encoding.sequence_ranges@,
            Option::Some(p) => seq![
                (0usize, encoding.spec_len() as usize),
                (encoding.spec_len() as usize, (encoding.spec_len() + p.spec_len()) as usize),
            ],
        }
    }

    fn added_specials(&self, is_pair: bool) -> (r: usize) {
        0
    }

    fn process(&self, encoding: Encoding, pair: Option<Encoding>) -> (r: Encoding) {
        match pair {
            Option::None => {
                proof {
                    crate::encoding::lemma_encoding_rows_match(encoding);
                }
                encoding
            },
            Option::Some(p) => {
                let ghost ge = encoding;
                let ghost gp = p;
                let mut parts: Vec<Encoding> = Vec::new();
                parts.push(encoding);
                parts.push(p);
                proof {
                    assert(parts@ =~= seq![ge, gp]);
                }
                let m = Encoding::merge(parts, false);
                proof {
                    let ps = seq![ge, gp];
                    reveal_with_fuel(crate::encoding::cat_id, 3);
                    reveal_with_fuel(crate::encoding::cat_id_type, 3);
                    reveal_with_fuel(crate::encoding::cat_tokens, 3);
                    reveal_with_fuel(crate::encoding::cat_words, 3);
                    reveal_with_fuel(crate::encoding::cat_offsets, 3);
                    reveal_with_fuel(crate::encoding::cat_special, 3);
                    reveal_with_fuel(crate::encoding::cat_attention, 3);
                    reveal_with_fuel(crate::encoding::total_len, 3);
                    assert(crate::encoding::cat_id(ps, 1) =~= ge.id@);
                    assert(m.id@ =~= ge.id@ + gp.id@);
                    assert(crate::encoding::cat_id_type(ps, 1) =~= ge.id_type@);
                    assert(m.id_type@ =~= ge.id_type@ + gp.id_type@);
                    assert(crate::encoding::cat_tokens(ps, 1) =~= ge.tokens.deep_view());
                    assert(m.tokens.deep_view() =~= ge.tokens.deep_view() + gp.tokens.deep_view());
                    assert(crate::encoding::cat_words(ps, 1) =~= ge.words@);
                    assert(m.words@ =~= ge.words@ + gp.words@);
                    assert(crate::encoding::cat_offsets(ps, 1) =~= ge.offsets@);
                    assert(m.offsets@ =~= ge.offsets@ + gp.offsets@);
                    assert(crate::encoding::cat_special(ps, 1) =~= ge.special_tokens_mask@);
                    assert(m.special_tokens_mask@ =~= ge.special_tokens_mask@
                        + gp.special_tokens_mask@);
                    assert(crate::encoding::cat_attention(ps, 1) =~= ge.attention_mask@);
                    assert(m.attention_mask@ =~= ge.attention_mask@ + gp.attention_mask@);
                    assert(crate::encoding::total_len(ps, 1) == ge.spec_len());
                    assert(crate::encoding::total_len(ps, 2) == ge.spec_len() + gp.spec_len());
                    assert(m.sequence_ranges@ =~= self.spec_process_ranges(ge, Option::Some(gp)));
                    let er = encoding_rows(ge);
                    let pr = encoding_rows(gp);
                    let all = self.spec_process_rows(ge, Option::Some(gp));
                    assert(all == er + pr);
                    assert forall|i: int| 0 <= i < all.len() implies {
                        let row = #[trigger] all[i];
                        &&& m.id@[i] == row.0
                        &&& m.id_type@[i] == row.1
                        &&& m.tokens.deep_view()[i] == row.2
                        &&& m.words@[i] == row.3
                        &&& m.offsets@[i].0 == row.4.0
                        &&& m.offsets@[i].1 == row.4.1
                        &&& m.special_tokens_mask@[i] == row.5
                        &&& m.attention_mask@[i] == row.6
                    } by {
                        if i < er.len() {
                            assert(all[i] == er[i]);
                        } else {
                            assert(all[i] == pr[i - er.len()]);
                        }
                    }
                    assert(rows_match(m, all));
                }
                m
            },
        }
    }
}

} // verus!
