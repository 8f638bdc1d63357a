use jeton::encoding::PadDirection;
use jeton::parallel::get_parallel_available;
use jeton::stages::IdentityDecoder;
use jeton::stages::IdentityNormalizer;
use jeton::stages::IdentityPostProcessor;
use jeton::stages::IdentityPreTokenizer;
use jeton::stages::PieceModel;
use jeton::stages::PostProcessor;
use jeton::Encoding;
use jeton::ExecutionStrategy;
use jeton::TokenExtension;
use jeton::TokenizerBuilder;
use jeton::TokenizerImpl;
use jeton::TokenizerError;
use jeton::VocabExtension;

type Tok = TokenizerImpl<
    PieceModel,
    IdentityNormalizer,
    IdentityPreTokenizer,
    IdentityPostProcessor,
    IdentityDecoder,
>;

fn b(s: &str) -> Vec<u8> {
    s.as_bytes().to_vec()
}

fn no_normalizer() -> Option<&'static IdentityNormalizer> {
    None
}

fn simple_encoding(ids: Vec<u32>) -> Encoding {
    let n = ids.len();
    Encoding::new(
        ids.clone(),
        vec![0; n],
        ids.iter().map(|i| vec![*i as u8]).collect(),
        vec![None; n],
        (0..n).map(|i| (i, i + 1)).collect(),
        vec![0; n],
        vec![1; n],
        Vec::new(),
        Vec::new(),
    )
    .expect("parallel sequences have equal length")
}

#[test]
fn encoding_new_checks_parallel_lengths() {
    // Equal lengths are accepted.
    assert!(simple_encoding(vec![1, 2, 3]).check_wf());
    // A mismatched sequence is rejected, not silently fixed.
    let r = Encoding::new(
        vec![1, 2],
        vec![0],
        vec![vec![1u8], vec![2u8]],
        vec![None, None],
        vec![(0, 1), (1, 2)],
        vec![0, 0],
        vec![1, 1],
        Vec::new(),
        Vec::new(),
    );
    assert_eq!(r.unwrap_err(), TokenizerError::MismatchedLengths);
}

#[test]
fn truncate_keeps_invariant_everywhere() {
    let mut e = simple_encoding((0..10).collect());
    e.truncate(4, 1).unwrap();
    assert_eq!(e.id, vec![0, 1, 2, 3]);
    assert!(e.check_wf());
    for child in &e.overflowing {
        assert!(child.check_wf());
        assert!(child.id.len() <= 4);
    }
}

#[test]
fn truncate_rejects_bad_windowing() {
    let mut e = simple_encoding((0..10).collect());
    assert_eq!(e.truncate(4, 4).unwrap_err(), TokenizerError::InvalidTruncation);
    assert_eq!(e.truncate(0, 0).unwrap_err(), TokenizerError::InvalidTruncation);
    // Unchanged after a rejection.
    assert_eq!(e.id.len(), 10);
    // A record that already fits is untouched.
    e.truncate(10, 2).unwrap();
    assert_eq!(e.id.len(), 10);
    assert!(e.overflowing.is_empty());
}

#[test]
fn truncate_overflow_reconstructs_original() {
    let original: Vec<u32> = (0..10).collect();
    let mut e = simple_encoding(original.clone());
    let max_len = 4;
    let stride = 1;
    e.truncate(max_len, stride).unwrap();
    let mut rebuilt = e.id.clone();
    for child in &e.overflowing {
        rebuilt.extend_from_slice(&child.id[stride..]);
    }
    assert_eq!(rebuilt, original);
    // Every chunk starts with the last `stride` tokens of its
    // predecessor.
    let mut prev = e.id.clone();
    for child in &e.overflowing {
        assert_eq!(child.id[..stride], prev[prev.len() - stride..]);
        prev = child.id.clone();
    }
}

#[test]
fn merge_concatenates_and_records_ranges() {
    let a = simple_encoding(vec![1, 2]);
    let bx = simple_encoding(vec![3, 4, 5]);
    let m = Encoding::merge(vec![a, bx], false);
    assert_eq!(m.id, vec![1, 2, 3, 4, 5]);
    assert_eq!(m.sequence_ranges, vec![(0, 2), (2, 5)]);
    assert!(m.check_wf());
    // Offsets kept verbatim without growing.
    assert_eq!(m.offsets[2], (0, 1));
}

#[test]
fn merge_growing_offsets_stay_monotone() {
    let a = simple_encoding(vec![1, 2]);
    let bx = simple_encoding(vec![3, 4]);
    let m = Encoding::merge(vec![a, bx], true);
    // Second part's offsets shifted by the first part's last end (2).
    assert_eq!(m.offsets, vec![(0, 1), (1, 2), (2, 3), (3, 4)]);
}

#[test]
fn pad_right_and_left() {
    let mut e = simple_encoding(vec![7, 8]);
    e.pad(4, 99, 5, &b("[PAD]"), PadDirection::Right);
    assert_eq!(e.id, vec![7, 8, 99, 99]);
    assert_eq!(e.id_type, vec![0, 0, 5, 5]);
    assert_eq!(e.attention_mask, vec![1, 1, 0, 0]);
    assert_eq!(e.special_tokens_mask, vec![0, 0, 0, 0]);
    assert_eq!(e.offsets[2], (0, 0));
    assert_eq!(e.words[3], None);
    assert_eq!(e.tokens[3], b("[PAD]"));

    let mut e2 = simple_encoding(vec![7]);
    e2.pad(3, 99, 0, &b("[PAD]"), PadDirection::Left);
    assert_eq!(e2.id, vec![99, 99, 7]);
    assert_eq!(e2.attention_mask, vec![0, 0, 1]);

    // No-op at or above the target length.
    let mut e3 = simple_encoding(vec![1, 2, 3]);
    e3.pad(2, 99, 0, &b("[PAD]"), PadDirection::Right);
    assert_eq!(e3.id, vec![1, 2, 3]);
}

#[test]
fn leftmost_longest_wins() {
    let mut v = VocabExtension::new();
    let ids = v.add_tokens(
        vec![
            TokenExtension::from(b("ab"), false).set_normalized(false),
            TokenExtension::from(b("abc"), false).set_normalized(false),
        ],
        false,
        no_normalizer(),
    );
    assert_eq!(ids, vec![0, 1]);
    let spans = v.split_raw(&b("abcd"));
    assert_eq!(spans.len(), 2);
    assert_eq!((spans[0].start, spans[0].end, spans[0].token_id), (0, 3, Some(1)));
    assert_eq!((spans[1].start, spans[1].end, spans[1].token_id), (3, 4, None));
}

#[test]
fn registration_order_assigns_priority() {
    let mut v = VocabExtension::new();
    let first = v.add_tokens(
        vec![TokenExtension::from(b("ab"), false).set_normalized(false)],
        false,
        no_normalizer(),
    );
    // The same content registered again keeps its first id; flags merge
    // by OR on `is_special` only.
    let second = v.add_tokens(
        vec![TokenExtension::from(b("ab"), true).set_normalized(false)],
        false,
        no_normalizer(),
    );
    assert_eq!(first, vec![0]);
    assert_eq!(second, vec![0]);
    assert_eq!(v.len(), 1);
    assert!(v.added_tokens[0].is_special);
    // With special matching on, the match reports the first id.
    v.set_encode_special_tokens(true, no_normalizer());
    let spans = v.split_raw(&b("ab"));
    assert_eq!(spans.len(), 1);
    assert_eq!(spans[0].token_id, Some(0));
}

#[test]
fn whitespace_absorption() {
    let mut v = VocabExtension::new();
    v.add_tokens(
        vec![
            TokenExtension::from(b("[SEP]"), false)
                .set_normalized(false)
                .is_stripped(true, true),
        ],
        false,
        no_normalizer(),
    );
    let spans = v.split_raw(&b("a [SEP] b"));
    assert_eq!(spans.len(), 3);
    assert_eq!((spans[0].start, spans[0].end, spans[0].token_id), (0, 1, None));
    assert_eq!((spans[1].start, spans[1].end, spans[1].token_id), (1, 8, Some(0)));
    assert_eq!((spans[2].start, spans[2].end, spans[2].token_id), (8, 9, None));
}

#[test]
fn single_word_boundary_rejects_merging() {
    let mut v = VocabExtension::new();
    v.add_tokens(
        vec![
            TokenExtension::from(b("[s]"), false).set_normalized(false).set_single(true),
        ],
        false,
        no_normalizer(),
    );
    // Adjacent to word characters on both sides: the match is rejected
    // and the text falls through to ordinary handling.
    let spans = v.split_raw(&b("a[s]b"));
    assert_eq!(spans.len(), 1);
    assert_eq!(spans[0].token_id, None);
    // Standing alone it matches.
    let spans2 = v.split_raw(&b("[s]"));
    assert_eq!(spans2.len(), 1);
    assert_eq!(spans2[0].token_id, Some(0));
}

#[test]
fn special_token_gating() {
    let mut v = VocabExtension::new();
    v.add_tokens(
        vec![TokenExtension::from(b("[CLS]"), true).set_normalized(false)],
        true,
        no_normalizer(),
    );
    // Off by default: the literal text is not matched.
    let spans = v.split_raw(&b("[CLS]"));
    assert_eq!(spans.len(), 1);
    assert_eq!(spans[0].token_id, None);
    // Enabled: matched and reported as an added span.
    v.set_encode_special_tokens(true, no_normalizer());
    let spans2 = v.split_raw(&b("[CLS]"));
    assert_eq!(spans2.len(), 1);
    assert_eq!(spans2[0].token_id, Some(0));
}

fn build_tokenizer() -> Tok {
    let mut builder: TokenizerBuilder<
        PieceModel,
        IdentityNormalizer,
        IdentityPreTokenizer,
        IdentityPostProcessor,
        IdentityDecoder,
    > = TokenizerBuilder::new();
    builder.model = Some(PieceModel { vocab: vec![b("Hello"), b("world")], fallback_id: 9 });
    builder.build().expect("a model was supplied")
}

#[test]
fn build_without_model_fails() {
    let builder: TokenizerBuilder<
        PieceModel,
        IdentityNormalizer,
        IdentityPreTokenizer,
        IdentityPostProcessor,
        IdentityDecoder,
    > = TokenizerBuilder::new();
    match builder.build() {
        Err(e) => assert_eq!(e, TokenizerError::MissingModel),
        Ok(_) => panic!("a build without a model must fail"),
    }
}

#[test]
fn end_to_end_encode() {
    let mut t = build_tokenizer();
    t.add_tokens(
        vec![
            TokenExtension::from(b("[CLS]"), true).set_normalized(false).is_stripped(true, true),
        ],
        true,
    );
    t.vocab_extension.set_encode_special_tokens(true, no_normalizer());
    let e = t.encode(&b("Hello [CLS] world"));
    assert!(e.check_wf());
    assert_eq!(e.tokens, vec![b("Hello"), b("[CLS]"), b("world")]);
    assert_eq!(e.special_tokens_mask, vec![0, 1, 0]);
    assert_eq!(e.attention_mask, vec![1, 1, 1]);
    // "Hello" sits at its own position; the special span absorbs the
    // surrounding spaces; "world" follows.
    assert_eq!(e.offsets, vec![(0, 5), (5, 12), (12, 17)]);
    assert_eq!(e.id, vec![0, 0, 1]);
    assert_eq!(e.words, vec![Some(0), None, Some(0)]);
}

#[test]
fn end_to_end_without_stripping() {
    let mut t = build_tokenizer();
    t.add_tokens(
        vec![TokenExtension::from(b("[CLS]"), true).set_normalized(false)],
        true,
    );
    t.vocab_extension.set_encode_special_tokens(true, no_normalizer());
    let e = t.encode(&b("Hello [CLS] world"));
    assert!(e.check_wf());
    // The added span sits exactly at its position in the original
    // string; with the identity pre-splitting and no whitespace
    // absorption, the surrounding spaces stay with the ordinary runs.
    assert_eq!(e.offsets, vec![(0, 6), (6, 11), (11, 17)]);
    assert_eq!(e.tokens, vec![b("Hello "), b("[CLS]"), b(" world")]);
    assert_eq!(e.special_tokens_mask, vec![0, 1, 0]);
    assert_eq!(e.attention_mask, vec![1, 1, 1]);
    assert_eq!(e.words[1], None);
    assert_eq!(e.id[1], 0);
}

#[test]
fn decode_skips_specials_unless_requested() {
    let plain = build_tokenizer();
    // Without added tokens, ids go through the model and are joined.
    assert_eq!(plain.decode(&vec![0, 1], true), b("Helloworld"));

    let mut t = build_tokenizer();
    t.add_tokens(
        vec![TokenExtension::from(b("[CLS]"), true).set_normalized(false)],
        true,
    );
    // The added vocabulary is looked up first; id 1 falls through to
    // the model. The special token is dropped unless requested.
    assert_eq!(t.decode(&vec![0, 1], true), b("world"));
    assert_eq!(t.decode(&vec![0, 1], false), b("[CLS]world"));
}

#[test]
fn batch_serial_and_parallel_agree() {
    let t = build_tokenizer();
    let inputs = vec![b("Hello"), b("world"), b("Hello world"), b("")];
    let (serial, used_s) = t.encode_batch(&inputs, ExecutionStrategy::ForceSerial, None);
    let (parallel, used_p) = t.encode_batch(&inputs, ExecutionStrategy::ForceParallel, None);
    assert!(!used_s);
    assert!(used_p);
    assert_eq!(serial.len(), parallel.len());
    for (a, x) in serial.iter().zip(parallel.iter()) {
        assert_eq!(a.id, x.id);
        assert_eq!(a.id_type, x.id_type);
        assert_eq!(a.tokens, x.tokens);
        assert_eq!(a.words, x.words);
        assert_eq!(a.offsets, x.offsets);
        assert_eq!(a.special_tokens_mask, x.special_tokens_mask);
        assert_eq!(a.attention_mask, x.attention_mask);
    }
}

#[test]
fn parallel_policy_and_env() {
    assert!(!get_parallel_available(ExecutionStrategy::ForceSerial, Some(&b("1"))));
    assert!(get_parallel_available(ExecutionStrategy::ForceParallel, Some(&b("off"))));
    assert!(!get_parallel_available(ExecutionStrategy::Unset, None));
    assert!(get_parallel_available(ExecutionStrategy::Unset, Some(&b("1"))));
    for word in ["off", "OFF", "false", "disable", "no", "0"] {
        assert!(!get_parallel_available(ExecutionStrategy::Unset, Some(&b(word))));
    }
}

#[test]
fn identity_post_processor_concatenates_pairs() {
    let pp = IdentityPostProcessor;
    let a = simple_encoding(vec![1, 2]);
    let bx = simple_encoding(vec![3, 4, 5]);
    let m = pp.process(a, Some(bx));
    assert!(m.check_wf());
    assert_eq!(m.id, vec![1, 2, 3, 4, 5]);
    assert_eq!(m.attention_mask, vec![1, 1, 1, 1, 1]);
    // Offsets verbatim, and the two inputs' token ranges recorded.
    assert_eq!(m.offsets[2], (0, 1));
    assert_eq!(m.sequence_ranges, vec![(0, 2), (2, 5)]);
    // A single sequence passes through unchanged.
    let single = pp.process(simple_encoding(vec![9]), None);
    assert_eq!(single.id, vec![9]);
    assert_eq!(single.sequence_ranges, Vec::<(usize, usize)>::new());
}

#[test]
fn split_of_empty_text_is_empty() {
    let v = VocabExtension::new();
    assert!(v.split(&b(""), no_normalizer()).is_empty());
    assert!(v.split_raw(&b("")).is_empty());
    // Text with no registered tokens is one ordinary span.
    let spans = v.split(&b("plain"), no_normalizer());
    assert_eq!(spans.len(), 1);
    assert_eq!((spans[0].start, spans[0].end, spans[0].token_id), (0, 5, None));
}

#[test]
fn duplicate_registration_merges_special_only() {
    let mut v = VocabExtension::new();
    v.add_tokens(
        vec![TokenExtension::from(b("t"), false).set_normalized(false).is_stripped(true, false)],
        false,
        no_normalizer(),
    );
    // A duplicate with different stripping flags: only `is_special` is
    // OR-ed into the stored entry; the other flags keep their first
    // registration.
    v.add_tokens(
        vec![TokenExtension::from(b("t"), true).set_normalized(false).is_stripped(false, true)],
        false,
        no_normalizer(),
    );
    assert_eq!(v.len(), 1);
    assert!(v.added_tokens[0].is_special);
    assert_eq!(v.added_tokens[0].is_stripped, (true, false));
}

#[test]
fn entries_sorted_by_id() {
    let mut v = VocabExtension::new();
    v.add_tokens(
        vec![
            TokenExtension::from(b("x"), false),
            TokenExtension::from(b("y"), true),
        ],
        false,
        no_normalizer(),
    );
    let entries = v.to_entries();
    assert_eq!(entries.len(), 2);
    assert_eq!(entries[0].id, 0);
    assert_eq!(entries[0].token.content, b("x"));
    assert_eq!(entries[1].id, 1);
    assert_eq!(entries[1].token.content, b("y"));
    assert!(entries[1].token.is_special);
}

#[test]
fn normalized_pass_matches_through_identity() {
    let mut v = VocabExtension::new();
    // A normalized token is matched in the second pass.
    v.add_tokens(vec![TokenExtension::from(b("tok"), false)], false, no_normalizer());
    let spans = v.split(&b("a tok b"), no_normalizer());
    let added: Vec<_> = spans.iter().filter(|s| s.token_id.is_some()).collect();
    assert_eq!(added.len(), 1);
    assert_eq!((added[0].start, added[0].end), (2, 5));
    // The raw pass alone does not see it.
    let raw = v.split_raw(&b("a tok b"));
    assert!(raw.iter().all(|s| s.token_id.is_none()));
}
