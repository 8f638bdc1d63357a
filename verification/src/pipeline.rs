//! The tokenization pipeline: a mandatory model with optional
//! normalization, pre-splitting, post-processing and decoding stages,
//! composed around the added-vocabulary matching engine.

use vstd::prelude::*;

use crate::encoding::rows_match;
use crate::encoding::Encoding;
use crate::encoding::EncodeRow;
use crate::error::TokenizerError;
use crate::stages::concat_bytes;
use crate::stages::Decoder;
use crate::stages::IdentityNormalizer;
use crate::stages::IdentityPreTokenizer;
use crate::stages::Model;
use crate::stages::Normalizer;
use crate::stages::PostProcessor;
use crate::stages::PreTokenizer;
use crate::token::TokenExtension;
use crate::vocab::VocabExtension;

verus! {

/// Step-by-step construction of a [`TokenizerImpl`].
pub struct TokenizerBuilder<M, N, PT, PP, D> {
    pub model: Option<M>,
    pub normalizer: Option<N>,
    pub pre_tokenizer: Option<PT>,
    pub post_processor: Option<PP>,
    pub decoder: Option<D>,
    pub vocab_extension: VocabExtension,
}

impl<M: Model, N: Normalizer, PT: PreTokenizer, PP: PostProcessor, D: Decoder> TokenizerBuilder<
    M,
    N,
    PT,
    PP,
    D,
> {
    /// An empty builder: no stages, an empty added vocabulary.
    pub fn new() -> (r: Self)
        ensures
            r.model is None,
            r.normalizer is None,
            r.pre_tokenizer is None,
            r.post_processor is None,
            r.decoder is None,
            r.vocab_extension.wf(),
            r.vocab_extension.added_tokens@.len() == 0,
    {
        Self {
            model: None,
            normalizer: None,
            pre_tokenizer: None,
            post_processor: None,
            decoder: None,
            vocab_extension: VocabExtension::new(),
        }
    }

    /// Builds the tokenizer. Fails, before any encode is possible, when
    /// no model was supplied: the single mandatory dependency.
    pub fn build(self) -> (r: Result<TokenizerImpl<M, N, PT, PP, D>, TokenizerError>)
        ensures
            r is Ok <==> self.model is Some,
            r is Err ==> r->Err_0 == TokenizerError::MissingModel,
            r is Ok ==> {
                let t = r->Ok_0;
                &&& t.model == self.model.unwrap()
                &&& t.normalizer == self.normalizer
                &&& t.pre_tokenizer == self.pre_tokenizer
                &&& t.post_processor == self.post_processor
                &&& t.decoder == self.decoder
                &&& t.vocab_extension == self.vocab_extension
            },
    {
        match self.model {
            Option::None => Err(TokenizerError::MissingModel),
            Option::Some(model) => Ok(
                TokenizerImpl {
                    model,
                    normalizer: self.normalizer,
                    pre_tokenizer: self.pre_tokenizer,
                    post_processor: self.post_processor,
                    decoder: self.decoder,
                    vocab_extension: self.vocab_extension,
                },
            ),
        }
    }
}

/// The assembled pipeline.
pub struct TokenizerImpl<M, N, PT, PP, D> {
    pub model: M,
    pub normalizer: Option<N>,
    pub pre_tokenizer: Option<PT>,
    pub post_processor: Option<PP>,
    pub decoder: Option<D>,
    pub vocab_extension: VocabExtension,
}

impl<M: Model, N: Normalizer, PT: PreTokenizer, PP: PostProcessor, D: Decoder> TokenizerImpl<
    M,
    N,
    PT,
    PP,
    D,
> {
    /// The pipeline's structural invariant: its added vocabulary is
    /// well-formed.
    pub open spec fn wf(self) -> bool {
        self.vocab_extension.wf()
    }

    /// A pipeline with the given model and every optional stage absent.
    pub fn new(model: M) -> (r: Self)
        ensures
            r.wf(),
            r.model == model,
            r.normalizer is None,
            r.pre_tokenizer is None,
            r.post_processor is None,
            r.decoder is None,
            r.vocab_extension.added_tokens@.len() == 0,
    {
        Self {
            model,
            normalizer: None,
            pre_tokenizer: None,
            post_processor: None,
            decoder: None,
            vocab_extension: VocabExtension::new(),
        }
    }

    /// Registers added tokens (see [`VocabExtension::add_tokens`]); the
    /// pipeline's normalizer is used to build the normalized matching
    /// set.
    pub fn add_tokens(&mut self, descriptors: Vec<TokenExtension>, as_special: bool) -> (r: Vec<
        u32,
    >)
        requires
            old(self).wf(),
            old(self).vocab_extension.added_tokens@.len() + descriptors@.len() <= u32::MAX,
        ensures
            final(self).wf(),
            final(self).model == old(self).model,
            final(self).vocab_extension.added_tokens@ == crate::vocab::add_all(
                old(self).vocab_extension.added_tokens@,
                descriptors@,
                as_special,
                descriptors@.len() as int,
            ).0,
            r@ == crate::vocab::add_all(
                old(self).vocab_extension.added_tokens@,
                descriptors@,
                as_special,
                descriptors@.len() as int,
            ).1,
    {
        let normalizer = self.normalizer.as_ref();
        self.vocab_extension.add_tokens(descriptors, as_special, normalizer)
    }

    /// Whether `nref` denotes the pipeline's own normalizer setting.
    pub open spec fn same_normalizer(self, nref: Option<&N>) -> bool {
        match (nref, self.normalizer) {
            (Option::Some(x), Option::Some(y)) => *x == y,
            (Option::None, Option::None) => true,
            _ => false,
        }
    }

    /// One encoding row per model token of one piece: the token's id,
    /// segment id 0, its surface, the piece's index as the word, its
    /// span remapped through the alignment map to original-text
    /// coordinates (`base` is the run's start), special mask 0 and
    /// attention 1.
    pub open spec fn tok_rows(
        toks: Seq<(Seq<u8>, u32, (usize, usize))>,
        align: Seq<(usize, usize)>,
        base: int,
        pstart: int,
        word: u32,
    ) -> Seq<EncodeRow> {
        Seq::new(
            toks.len(),
            |j: int|
                {
                    let t = toks[j];
                    let idx_s = pstart + t.2.0;
                    let idx_e = pstart + t.2.1;
                    let orig_s = if 0 <= idx_s < align.len() {
                        base + align[idx_s].0
                    } else {
                        base
                    };
                    let orig_e = if 0 <= idx_e - 1 < align.len() {
                        base + align[idx_e - 1].1
                    } else {
                        orig_s
                    };
                    (t.1, 0u32, t.0, Option::Some(word), (orig_s, orig_e), 0u32, 1u32)
                },
        )
    }

    /// The rows the first `i` pieces of one ordinary run contribute.
    pub open spec fn piece_rows(
        self,
        pieces: Seq<(Seq<u8>, (usize, usize))>,
        align: Seq<(usize, usize)>,
        base: int,
        i: int,
    ) -> Seq<EncodeRow>
        decreases i,
    {
        if i <= 0 {
            Seq::empty()
        } else {
            self.piece_rows(pieces, align, base, i - 1) + Self::tok_rows(
                self.model.spec_segment(pieces[i - 1].0),
                align,
                base,
                pieces[i - 1].1.0 as int,
                (i - 1) as u32,
            )
        }
    }

    /// The rows one ordinary run contributes: the run is normalized,
    /// pre-split into pieces, and each piece segmented by the model.
    pub open spec fn run_rows(self, run: Seq<u8>, base: int) -> Seq<EncodeRow> {
        let ntext = match self.normalizer {
            Option::Some(n) => n.spec_normalize(run).0,
            Option::None => run,
        };
        let align = match self.normalizer {
            Option::Some(n) => n.spec_normalize(run).1,
            Option::None => Seq::new(run.len(), |i: int| ((i as usize, (i + 1) as usize))),
        };
        let pieces = match self.pre_tokenizer {
            Option::Some(pt) => pt.spec_pre_tokenize(ntext),
            Option::None => seq![(ntext, (0usize, ntext.len() as usize))],
        };
        self.piece_rows(pieces, align, base, pieces.len() as int)
    }

    /// The row one added-token span contributes: the pre-assigned id,
    /// segment id 0, the registered content as surface (empty for an id
    /// outside the table), no word, the span's offsets, the
    /// descriptor's special flag as mask, attention 1.
    pub open spec fn added_row(self, sp: (int, int, Option<u32>)) -> EncodeRow {
        let id = sp.2.unwrap();
        let table = self.vocab_extension.added_tokens@;
        let surface = if (id as int) < table.len() {
            table[id as int].content@
        } else {
            Seq::<u8>::empty()
        };
        let special: u32 = if (id as int) < table.len() && table[id as int].is_special {
            1
        } else {
            0
        };
        (id, 0u32, surface, Option::<u32>::None, (sp.0, sp.1), special, 1u32)
    }

    /// The rows that encoding contributes from the split spans at index
    /// `k` on: one row per added span, the model's segmentation rows
    /// for each ordinary run.
    pub open spec fn spec_encode_rows(
        self,
        text: Seq<u8>,
        spans: Seq<(int, int, Option<u32>)>,
        k: int,
    ) -> Seq<EncodeRow>
        decreases spans.len() - k,
        when 0 <= k
    {
        if k >= spans.len() {
            Seq::empty()
        } else {
            let sp = spans[k];
            let here = match sp.2 {
                Option::Some(id) => seq![self.added_row(sp)],
                Option::None => {
                    if 0 <= sp.0 <= sp.1 <= text.len() {
                        self.run_rows(text.subrange(sp.0, sp.1), sp.0)
                    } else {
                        Seq::empty()
                    }
                },
            };
            here + self.spec_encode_rows(text, spans, k + 1)
        }
    }

    /// Builds the pre-assembly record that the post-processor (if any)
    /// receives: exactly the rows of [`TokenizerImpl::spec_encode_rows`]
    /// over the two-pass split, with no overflow children and no
    /// sequence ranges.
    pub fn encode_core(&self, text: &Vec<u8>) -> (r: Encoding)
        requires
            self.wf(),
        ensures
            r.wf(),
            r.overflowing@.len() == 0,
            r.sequence_ranges@.len() == 0,
            forall|nref: Option<&N>|
                self.same_normalizer(nref) ==> rows_match(
                    r,
                    self.spec_encode_rows(
                        text@,
                        #[trigger] self.vocab_extension.spec_split(text@, nref),
                        0,
                    ),
                ),
    {
        let nref = self.normalizer.as_ref();
        let spans = self.vocab_extension.split(text, nref);
        let ghost gnref = nref;
        let ghost gspans = self.vocab_extension.spec_split(text@, gnref);
        let mut enc = Encoding::with_capacity(0);
        let ghost mut grows: Seq<EncodeRow> = Seq::empty();
        let mut k: usize = 0;
        while k < spans.len()
            invariant
                self.wf(),
                0 <= k <= spans@.len(),
                enc.overflowing@.len() == 0,
                enc.sequence_ranges@.len() == 0,
                gspans == crate::vocab::spans_view(spans@),
                gspans.len() == spans@.len(),
                rows_match(enc, grows),
                grows + self.spec_encode_rows(text@, gspans, k as int) == self.spec_encode_rows(
                    text@,
                    gspans,
                    0,
                ),
            decreases spans@.len() - k,
        {
            let ghost grows0 = grows;
            let ghost gtail = self.spec_encode_rows(text@, gspans, k as int);
            let ghost gtail2 = self.spec_encode_rows(text@, gspans, k as int + 1);
            let sp = spans[k];
            proof {
                assert(gspans[k as int] == crate::vocab::span_view(sp));
            }
            match sp.token_id {
                Option::Some(id) => {
                    let special = match self.vocab_extension.id_to_token(id) {
                        Option::Some(tok) => tok.is_special,
                        Option::None => false,
                    };
                    let surface = match self.vocab_extension.id_to_token(id) {
                        Option::Some(tok) => crate::encoding::copy_range(
                            &tok.content,
                            0,
                            tok.content.len(),
                        ),
                        Option::None => Vec::new(),
                    };
                    let ghost gpre = enc;
                    let ghost gsurf = surface@;
                    let ghost grow_item = self.added_row(crate::vocab::span_view(sp));
                    enc.id.push(id);
                    enc.id_type.push(0);
                    enc.tokens.push(surface);
                    enc.words.push(None);
                    enc.offsets.push((sp.start, sp.end));
                    enc.special_tokens_mask.push(if special { 1 } else { 0 });
                    enc.attention_mask.push(1);
                    proof {
                        assert(grow_item.2 == gsurf);
                        assert(enc.tokens.deep_view() =~~= gpre.tokens.deep_view().push(gsurf));
                        lemma_rows_push(gpre, enc, grows, grow_item, (sp.start, sp.end));
                        grows = grows.push(grow_item);
                        assert(gtail == seq![grow_item] + gtail2);
                        assert(grows + gtail2 =~= grows0 + gtail);
                    }
                },
                Option::None => {
                    if !(sp.start <= sp.end && sp.end <= text.len()) {
                        proof {
                            assert(gtail == gtail2);
                        }
                    }
                    if sp.start <= sp.end && sp.end <= text.len() {
                        let run = crate::encoding::copy_range(text, sp.start, sp.end);
                        let pr: (Vec<u8>, Vec<(usize, usize)>) = match &self.normalizer {
                            Option::Some(n) => {
                                let p = n.normalize(&run);
                                proof {
                                    n.normalize_alignment_ok(run@);
                                }
                                p
                            },
                            Option::None => {
                                let idn = IdentityNormalizer;
                                let p = idn.normalize(&run);
                                proof {
                                    idn.normalize_alignment_ok(run@);
                                }
                                p
                            },
                        };
                        let ntext = pr.0;
                        let align = pr.1;
                        let nlen = ntext.len();
                        proof {
                            assert(ntext@.len() == nlen);
                        }
                        let pieces = match &self.pre_tokenizer {
                            Option::Some(pt) => {
                                let ps = pt.pre_tokenize(&ntext);
                                proof {
                                    pt.pre_tokenize_pieces_ok(ntext@);
                                }
                                ps
                            },
                            Option::None => {
                                let idp = IdentityPreTokenizer;
                                let ps = idp.pre_tokenize(&ntext);
                                proof {
                                    idp.pre_tokenize_pieces_ok(ntext@);
                                }
                                ps
                            },
                        };
                        let ghost grun = text@.subrange(sp.start as int, sp.end as int);
                        let ghost galign = align@;
                        let ghost base = sp.start as int;
                        let ghost gpieces = pieces@.map_values(
                            |p: crate::stages::Piece| crate::stages::piece_view(p),
                        );
                        proof {
                            assert(run@ == grun);
                            assert(ntext@ == (match self.normalizer {
                                Option::Some(n) => n.spec_normalize(grun).0,
                                Option::None => grun,
                            }));
                            assert(galign == (match self.normalizer {
                                Option::Some(n) => n.spec_normalize(grun).1,
                                Option::None => Seq::new(
                                    grun.len(),
                                    |i: int| ((i as usize, (i + 1) as usize)),
                                ),
                            }));
                            assert(gpieces == (match self.pre_tokenizer {
                                Option::Some(pt) => pt.spec_pre_tokenize(ntext@),
                                Option::None => seq![(ntext@, (0usize, ntext@.len() as usize))],
                            }));
                        }
                        let ghost growsr0 = grows;
                        let mut pi: usize = 0;
                        while pi < pieces.len()
                            invariant
                                self.wf(),
                                0 <= pi <= pieces@.len(),
                                enc.overflowing@.len() == 0,
                                enc.sequence_ranges@.len() == 0,
                                rows_match(enc, grows),
                                gpieces == pieces@.map_values(
                                    |p: crate::stages::Piece| crate::stages::piece_view(p),
                                ),
                                gpieces.len() == pieces@.len(),
                                grows == growsr0 + self.piece_rows(gpieces, galign, base, pi as int),
                                galign == align@,
                                crate::stages::alignment_ok(run@, ntext@, align@),
                                crate::stages::pieces_ok(ntext@, gpieces),
                                sp.start <= sp.end <= text@.len(),
                                base == sp.start as int,
                                run@.len() == sp.end - sp.start,
                            decreases pieces@.len() - pi,
                        {
                            let piece = &pieces[pi];
                            proof {
                                assert(gpieces[pi as int] == crate::stages::piece_view(
                                    pieces@[pi as int],
                                ));
                            }
                            let toks = self.model.segment(&piece.bytes);
                            proof {
                                self.model.segment_ok(piece.bytes@);
                            }
                            let ghost gtoks = self.model.spec_segment(piece.bytes@);
                            let ghost growsp0 = grows;
                            let ghost pstart = piece.span.0 as int;
                            let ghost word = pi as u32;
                            let mut ti: usize = 0;
                            while ti < toks.len()
                                invariant
                                    self.wf(),
                                    0 <= ti <= toks@.len(),
                                    enc.overflowing@.len() == 0,
                                    enc.sequence_ranges@.len() == 0,
                                    rows_match(enc, grows),
                                    gtoks == toks@.map_values(
                                        |t: crate::stages::ModelToken|
                                            crate::stages::model_token_view(t),
                                    ),
                                    gtoks.len() == toks@.len(),
                                    grows == growsp0 + Self::tok_rows(
                                        gtoks,
                                        galign,
                                        base,
                                        pstart,
                                        word,
                                    ).take(ti as int),
                                    galign == align@,
                                    crate::stages::alignment_ok(run@, ntext@, align@),
                                    crate::stages::segmentation_ok(
                                        piece.bytes@,
                                        toks@.map_values(
                                            |t: crate::stages::ModelToken|
                                                crate::stages::model_token_view(t),
                                        ),
                                    ),
                                    pstart == piece.span.0 as int,
                                    word == pi as u32,
                                    piece.span.0 <= piece.span.1 <= ntext@.len(),
                                    piece.bytes@.len() == piece.span.1 - piece.span.0,
                                    sp.start <= sp.end <= text@.len(),
                                    base == sp.start as int,
                                    run@.len() == sp.end - sp.start,
                                decreases toks@.len() - ti,
                            {
                                let t = &toks[ti];
                                proof {
                                    assert(gtoks[ti as int] == crate::stages::model_token_view(
                                        toks@[ti as int],
                                    ));
                                }
                                let idx_s = piece.span.0 + t.span.0;
                                let idx_e = piece.span.0 + t.span.1;
                                let orig_s: usize = if idx_s < align.len() {
                                    sp.start + align[idx_s].0
                                } else {
                                    sp.start
                                };
                                let orig_e: usize = if idx_e >= 1 && idx_e - 1 < align.len() {
                                    sp.start + align[idx_e - 1].1
                                } else {
                                    orig_s
                                };
                                let surface = crate::encoding::copy_range(
                                    &t.surface,
                                    0,
                                    t.surface.len(),
                                );
                                let ghost gpre = enc;
                                let ghost gsurf = surface@;
                                let ghost grow_item = Self::tok_rows(
                                    gtoks,
                                    galign,
                                    base,
                                    pstart,
                                    word,
                                )[ti as int];
                                proof {
                                    assert(grow_item == (gtoks[ti as int].1, 0u32, gtoks[
                                        ti as int].0, Option::Some(word), (orig_s as int,
                                        orig_e as int), 0u32, 1u32));
                                }
                                enc.id.push(t.id);
                                enc.id_type.push(0);
                                enc.tokens.push(surface);
                                enc.words.push(Some(pi as u32));
                                enc.offsets.push((orig_s, orig_e));
                                enc.special_tokens_mask.push(0);
                                enc.attention_mask.push(1);
                                proof {
                                    assert(grow_item.2 == gsurf);
                                    assert(enc.tokens.deep_view() =~~= gpre.tokens.deep_view().push(
                                        gsurf));
                                    lemma_rows_push(gpre, enc, grows, grow_item, (orig_s, orig_e));
                                    grows = grows.push(grow_item);
                                    assert(Self::tok_rows(gtoks, galign, base, pstart, word).take(
                                        ti as int + 1) =~= Self::tok_rows(
                                        gtoks,
                                        galign,
                                        base,
                                        pstart,
                                        word,
                                    ).take(ti as int).push(grow_item));
                                }
                                ti += 1;
                            }
                            proof {
                                assert(Self::tok_rows(gtoks, galign, base, pstart, word).take(
                                    toks@.len() as int) =~= Self::tok_rows(
                                    gtoks,
                                    galign,
                                    base,
                                    pstart,
                                    word,
                                ));
                                assert(gpieces[pi as int].0 == piece.bytes@);
                                assert(gpieces[pi as int].1 == piece.span);
                                assert(grows == growsr0 + self.piece_rows(
                                    gpieces,
                                    galign,
                                    base,
                                    pi as int + 1,
                                ));
                            }
                            pi += 1;
                        }
                        proof {
                            assert(self.run_rows(grun, base) == self.piece_rows(
                                gpieces,
                                galign,
                                base,
                                gpieces.len() as int,
                            ));
                            assert(gtail == self.run_rows(grun, base) + gtail2);
                            assert(grows + gtail2 =~= grows0 + gtail);
                        }
                    }
                },
            }
            k += 1;
        }
        proof {
            assert(self.spec_encode_rows(text@, gspans, gspans.len() as int)
                =~= Seq::<EncodeRow>::empty());
            assert(grows =~= self.spec_encode_rows(text@, gspans, 0));
            assert(enc.wf());
            assert forall|nref2: Option<&N>| self.same_normalizer(nref2) implies rows_match(
                enc,
                self.spec_encode_rows(
                    text@,
                    #[trigger] self.vocab_extension.spec_split(text@, nref2),
                    0,
                ),
            ) by {
                assert(nref2 == gnref);
            }
        }
        enc
    }

    /// There is a pre-assembly record holding exactly the spec rows of
    /// `text` (well-formed, no overflow children, no sequence ranges)
    /// from which the post-processor produced `r`.
    pub open spec fn processed_from(self, text: Seq<u8>, r: Encoding, nref: Option<&N>) -> bool {
        exists|core: Encoding|
            {
                &&& #[trigger] core.wf()
                &&& core.overflowing@.len() == 0
                &&& core.sequence_ranges@.len() == 0
                &&& rows_match(
                    core,
                    self.spec_encode_rows(
                        text,
                        self.vocab_extension.spec_split(text, nref),
                        0,
                    ),
                )
                &&& rows_match(
                    r,
                    self.post_processor.unwrap().spec_process_rows(core, Option::None),
                )
                &&& r.sequence_ranges@ == self.post_processor.unwrap().spec_process_ranges(
                    core,
                    Option::None,
                )
            }
    }

    /// Encodes one input text into an [`Encoding`].
    ///
    /// The added vocabulary splits the text; each added-token span
    /// becomes one token with its pre-assigned id, no word index, and
    /// its descriptor's special flag; each ordinary run is normalized,
    /// pre-split and segmented by the model, every token's offsets
    /// remapped through the piece's source range and the alignment map
    /// back to the original text. The post-processor, if present,
    /// assembles the final layout from exactly the record that
    /// [`TokenizerImpl::encode_core`] specifies; without one that
    /// record is returned as is.
    pub fn encode(&self, text: &Vec<u8>) -> (r: Encoding)
        requires
            self.wf(),
        ensures
            r.wf(),
            self.post_processor is None ==> r.overflowing@.len() == 0,
            self.post_processor is None ==> r.sequence_ranges@.len() == 0,
            self.post_processor is None ==> forall|nref: Option<&N>|
                self.same_normalizer(nref) ==> rows_match(
                    r,
                    self.spec_encode_rows(
                        text@,
                        #[trigger] self.vocab_extension.spec_split(text@, nref),
                        0,
                    ),
                ),
            self.post_processor is Some ==> forall|nref: Option<&N>|
                self.same_normalizer(nref) ==> #[trigger] self.processed_from(text@, r, nref),
    {
        let core = self.encode_core(text);
        match &self.post_processor {
            Option::Some(pp) => {
                let ghost gcore = core;
                let r = pp.process(core, None);
                proof {
                    assert forall|nref: Option<&N>| self.same_normalizer(nref) implies
                        #[trigger] self.processed_from(text@, r, nref) by {
                        assert(gcore.wf());
                        assert(rows_match(
                            gcore,
                            self.spec_encode_rows(
                                text@,
                                self.vocab_extension.spec_split(text@, nref),
                                0,
                            ),
                        ));
                        assert(rows_match(
                            r,
                            self.post_processor.unwrap().spec_process_rows(gcore, Option::None),
                        ));
                    }
                }
                r
            },
            Option::None => core,
        }
    }

    /// Decodes ids back to text: added-vocabulary lookup first, then
    /// the model; special tokens are dropped unless requested; the
    /// decoder (or plain concatenation) joins the surface tokens.
    pub fn decode(&self, ids: &Vec<u32>, skip_special_tokens: bool) -> (r: Vec<u8>)
        requires
            self.wf(),
        ensures
            ({
                let surfaces = decode_surfaces(
                    self.vocab_extension.added_tokens@,
                    |id: u32| self.model.spec_id_to_token(id),
                    ids@,
                    skip_special_tokens,
                    ids@.len() as int,
                );
                r@ == match self.decoder {
                    Option::Some(d) => d.spec_decode(surfaces),
                    Option::None => concat_bytes(surfaces, surfaces.len() as int),
                }
            }),
    {
        let mut surfaces: Vec<Vec<u8>> = Vec::new();
        let mut i: usize = 0;
        let ghost lookup = |id: u32| self.model.spec_id_to_token(id);
        proof {
            assert(surfaces.deep_view() =~= decode_surfaces(
                self.vocab_extension.added_tokens@,
                lookup,
                ids@,
                skip_special_tokens,
                0,
            ));
        }
        while i < ids.len()
            invariant
                self.wf(),
                0 <= i <= ids@.len(),
                lookup == (|id: u32| self.model.spec_id_to_token(id)),
                surfaces.deep_view() == decode_surfaces(
                    self.vocab_extension.added_tokens@,
                    lookup,
                    ids@,
                    skip_special_tokens,
                    i as int,
                ),
            decreases ids@.len() - i,
        {
            let ghost before = surfaces.deep_view();
            let id = ids[i];
            match self.vocab_extension.id_to_token(id) {
                Option::Some(tok) => {
                    if !(skip_special_tokens && tok.is_special) {
                        let surface = crate::encoding::copy_range(
                            &tok.content,
                            0,
                            tok.content.len(),
                        );
                        let ghost gs = surface@;
                        proof {
                            assert(gs =~= self.vocab_extension.added_tokens@[id as int].content@);
                        }
                        surfaces.push(surface);
                        proof {
                            assert(surfaces@.last().deep_view() =~= gs);
                            assert(surfaces.deep_view() =~~= before.push(gs));
                        }
                    }
                },
                Option::None => {
                    match self.model.id_to_token(id) {
                        Option::Some(surface) => {
                            let ghost gs = surface@;
                            surfaces.push(surface);
                            proof {
                                assert(surfaces@.last().deep_view() =~= gs);
                                assert(surfaces.deep_view() =~~= before.push(gs));
                            }
                        },
                        Option::None => {},
                    }
                },
            }
            proof {
                assert(surfaces.deep_view() == decode_surfaces(
                    self.vocab_extension.added_tokens@,
                    lookup,
                    ids@,
                    skip_special_tokens,
                    i as int + 1,
                ));
            }
            i += 1;
        }
        match &self.decoder {
            Option::Some(d) => d.decode(&surfaces),
            Option::None => {
                let idd = crate::stages::IdentityDecoder;
                let r = idd.decode(&surfaces);
                r
            },
        }
    }
}

/// Appending one row to a record that matches `rows` matches
/// `rows.push(row)`.
proof fn lemma_rows_push(
    pre: Encoding,
    post: Encoding,
    rows: Seq<EncodeRow>,
    row: EncodeRow,
    off: (usize, usize),
)
    requires
        rows_match(pre, rows),
        post.id@ == pre.id@.push(row.0),
        post.id_type@ == pre.id_type@.push(row.1),
        post.tokens.deep_view() == pre.tokens.deep_view().push(row.2),
        post.tokens@.len() == pre.tokens@.len() + 1,
        post.words@ == pre.words@.push(row.3),
        post.offsets@ == pre.offsets@.push(off),
        off.0 == row.4.0,
        off.1 == row.4.1,
        post.special_tokens_mask@ == pre.special_tokens_mask@.push(row.5),
        post.attention_mask@ == pre.attention_mask@.push(row.6),
    ensures
        rows_match(post, rows.push(row)),
{
    let all = rows.push(row);
    assert forall|i: int| 0 <= i < all.len() implies {
        let r2 = #[trigger] all[i];
        &&& post.id@[i] == r2.0
        &&& post.id_type@[i] == r2.1
        &&& post.tokens.deep_view()[i] == r2.2
        &&& post.words@[i] == r2.3
        &&& post.offsets@[i].0 == r2.4.0
        &&& post.offsets@[i].1 == r2.4.1
        &&& post.special_tokens_mask@[i] == r2.5
        &&& post.attention_mask@[i] == r2.6
    } by {
        if i < rows.len() {
            assert(all[i] == rows[i]);
        } else {
            assert(all[i] == row);
        }
    }
}

/// The surface tokens that decoding the first `i` ids yields: the
/// added-vocabulary entry where the id has one (dropped when special
/// and specials are skipped), else the model's surface, else nothing.
pub open spec fn decode_surfaces(
    table: Seq<TokenExtension>,
    model_lookup: spec_fn(u32) -> Option<Seq<u8>>,
    ids: Seq<u32>,
    skip_special: bool,
    i: int,
) -> Seq<Seq<u8>>
    decreases i,
{
    if i <= 0 {
        Seq::empty()
    } else {
        let prev = decode_surfaces(table, model_lookup, ids, skip_special, i - 1);
        let id = ids[i - 1];
        if (id as int) < table.len() {
            if skip_special && table[id as int].is_special {
                prev
            } else {
                prev.push(table[id as int].content@)
            }
        } else {
            match model_lookup(id) {
                Option::Some(s) => prev.push(s),
                Option::None => prev,
            }
        }
    }
}

} // verus!
