use bert_wordpiece::encode::TokError;
use bert_wordpiece::service::{get_tokens_from_str, Query, Registry};

fn lines(words: &[&str]) -> Vec<String> {
    words.iter().map(|w| w.to_string()).collect()
}

fn demo_registry(specials: &str, do_lower: bool, max_word: usize) -> Registry {
    let mut reg = Registry::new();
    let vocab = lines(&["[UNK]", "play", "##ing", "un", "##known", "[MASK]"]);
    let h = reg
        .initialize(vocab, specials, do_lower, max_word, 1)
        .expect("initialize should succeed");
    assert_eq!(h, 0);
    reg
}

fn encode_ids(reg: &Registry, input: &str, cap: usize) -> (Vec<u32>, usize, bool) {
    let mut q = Query::new(String::from(input));
    let _ = reg.tokenize(&mut q, cap);
    (q.output_ids.clone(), q.num_ids, q.tokenize_ok)
}

#[test]
fn scenario_playing_unknown() {
    let reg = demo_registry("[UNK]", true, 100);
    let (ids, n, ok) = encode_ids(&reg, "Playing unknown", 16);
    assert!(ok);
    assert_eq!(n, 4);
    assert_eq!(ids, vec![1, 2, 3, 4]);
}

#[test]
fn scenario_playing_unknown_tokens() {
    let reg = demo_registry("[UNK]", true, 100);
    let inst = reg.active().expect("instance");
    let enc = inst.encode("Playing unknown").expect("encode");
    let toks = enc.get_tokens();
    let toks: Vec<&str> = toks.iter().map(|s| s.as_str()).collect();
    assert_eq!(toks, vec!["play", "##ing", "un", "##known"]);
}

#[test]
fn scenario_unsegmentable_xyz() {
    let reg = demo_registry("[UNK]", true, 100);
    let (ids, n, ok) = encode_ids(&reg, "xyz", 16);
    assert!(ok);
    assert_eq!(n, 1);
    assert_eq!(ids, vec![0]);
    let inst = reg.active().expect("instance");
    let enc = inst.encode("xyz").expect("encode");
    let toks = enc.get_tokens();
    assert_eq!(toks.len(), 1);
    assert_eq!(toks[0].as_str(), "[UNK]");
}

#[test]
fn scenario_decode_continuation_stripping() {
    let reg = demo_registry("[UNK]", true, 100);
    let inst = reg.active().expect("instance");
    let s = inst.decode(&vec![1, 2, 3, 4], false).expect("decode");
    assert_eq!(s.as_str(), "playing unknown");
}

#[test]
fn exact_vocabulary_round_trip() {
    let reg = demo_registry("[UNK]", true, 100);
    // "play" is a vocabulary entry: exactly one token, the word itself.
    let (ids, n, ok) = encode_ids(&reg, "play", 16);
    assert!(ok);
    assert_eq!(n, 1);
    assert_eq!(ids, vec![1]);
}

#[test]
fn length_guard_precedence() {
    // "playing" is decomposable as play + ##ing, but 7 > 4 wins first.
    let reg = demo_registry("[UNK]", true, 4);
    let (ids, n, ok) = encode_ids(&reg, "playing", 16);
    assert!(ok);
    assert_eq!(n, 1);
    assert_eq!(ids, vec![0]);
}

#[test]
fn unsegmentable_discards_partial_progress() {
    // "playingx" starts like play + ##ing, but nothing matches at the
    // final "x": the whole word becomes one unknown token, not
    // play + ##ing + something.
    let reg = demo_registry("[UNK]", true, 100);
    let (ids, n, ok) = encode_ids(&reg, "playingx", 16);
    assert!(ok);
    assert_eq!(n, 1);
    assert_eq!(ids, vec![0]);
}

#[test]
fn added_token_atomicity_alone() {
    let reg = demo_registry("[MASK]", true, 100);
    // With lowercasing, "[mask]" is not in the vocabulary; only the
    // protected match can yield id 5.
    let (ids, n, ok) = encode_ids(&reg, "[MASK]", 16);
    assert!(ok);
    assert_eq!(n, 1);
    assert_eq!(ids, vec![5]);
}

#[test]
fn added_token_atomicity_embedded() {
    let reg = demo_registry("[MASK]", true, 100);
    let (ids, n, ok) = encode_ids(&reg, "playing [MASK]", 16);
    assert!(ok);
    assert_eq!(n, 3);
    assert_eq!(ids, vec![1, 2, 5]);
}

#[test]
fn truncation_determinism() {
    let reg = demo_registry("[UNK]", true, 100);
    let (ids, n, ok) = encode_ids(&reg, "Playing unknown", 2);
    assert!(ok);
    assert_eq!(n, 2);
    assert_eq!(ids, vec![1, 2]);
    // Zero capacity writes nothing, still a success.
    let (ids0, n0, ok0) = encode_ids(&reg, "Playing unknown", 0);
    assert!(ok0);
    assert_eq!(n0, 0);
    assert!(ids0.is_empty());
}

#[test]
fn tokenize_reports_untruncated_count() {
    let reg = demo_registry("[UNK]", true, 100);
    let mut q = Query::new(String::from("Playing unknown"));
    let total = reg.tokenize(&mut q, 2).expect("tokenize");
    assert_eq!(total, 4);
    assert_eq!(q.num_ids, 2);
}

#[test]
fn batch_independence() {
    // "[SEP]" is configured as a special token but has no vocabulary
    // id, so a query containing it fails to encode; its neighbours in
    // the batch are unaffected.
    let reg = demo_registry("[SEP]", true, 100);
    let queries = vec![
        Query::new(String::from("playing")),
        Query::new(String::from("un [SEP] known")),
        Query::new(String::from("unknown")),
    ];
    let out = reg.batch_tokenize(queries, 16);
    assert_eq!(out.len(), 3);
    assert!(out[0].tokenize_ok);
    assert_eq!(out[0].output_ids, vec![1, 2]);
    assert!(!out[1].tokenize_ok);
    assert_eq!(out[1].num_ids, 0);
    assert!(out[2].tokenize_ok);
    assert_eq!(out[2].output_ids, vec![3, 4]);
}

#[test]
fn decode_skips_special_tokens() {
    let reg = demo_registry("[MASK]", true, 100);
    let inst = reg.active().expect("instance");
    let s = inst.decode(&vec![5, 1, 2], true).expect("decode");
    assert_eq!(s.as_str(), "playing");
    let kept = inst.decode(&vec![5, 1, 2], false).expect("decode");
    assert_eq!(kept.as_str(), "[MASK] playing");
}

#[test]
fn decode_invalid_id_reports_failure() {
    let reg = demo_registry("[UNK]", true, 100);
    let inst = reg.active().expect("instance");
    let r = inst.decode(&vec![1, 99], false);
    assert_eq!(r.unwrap_err(), TokError::DecodeFailure);
}

#[test]
fn initialize_rejects_vocab_without_unknown_token() {
    let mut reg = Registry::new();
    let r = reg.initialize(lines(&["play", "##ing"]), "", true, 100, 1);
    assert_eq!(r.unwrap_err(), TokError::VocabLoad);
    // The registry is unchanged: tokenizing still reports misuse.
    let mut q = Query::new(String::from("play"));
    let t = reg.tokenize(&mut q, 8);
    assert_eq!(t.unwrap_err(), TokError::Uninitialized);
    assert!(!q.tokenize_ok);
    assert_eq!(q.num_ids, 0);
}

#[test]
fn tokenize_on_empty_registry_fails_without_panic() {
    let reg = Registry::new();
    let mut q = Query::new(String::from("anything"));
    let r = reg.tokenize(&mut q, 8);
    assert_eq!(r.unwrap_err(), TokError::Uninitialized);
    assert!(!q.tokenize_ok);
}

#[test]
fn encode_failure_flagged_per_query() {
    let reg = demo_registry("[CLS]", true, 100);
    let mut q = Query::new(String::from("[CLS] play"));
    let r = reg.tokenize(&mut q, 8);
    assert_eq!(r.unwrap_err(), TokError::EncodeFailure);
    assert!(!q.tokenize_ok);
    assert_eq!(q.num_ids, 0);
}

#[test]
fn last_initialized_instance_wins() {
    let mut reg = Registry::new();
    let h0 = reg
        .initialize(lines(&["[UNK]", "play"]), "", true, 100, 1)
        .expect("first");
    let h1 = reg
        .initialize(lines(&["[UNK]", "x", "play"]), "", true, 100, 1)
        .expect("second");
    assert_eq!(h0, 0);
    assert_eq!(h1, 1);
    let (ids, _, ok) = encode_ids(&reg, "play", 8);
    assert!(ok);
    assert_eq!(ids, vec![2]);
}

#[test]
fn whitespace_collapse_and_case_folding() {
    let reg = demo_registry("[UNK]", true, 100);
    let (ids, n, ok) = encode_ids(&reg, "  PLAYing \t\n unKNOWN  ", 16);
    assert!(ok);
    assert_eq!(n, 4);
    assert_eq!(ids, vec![1, 2, 3, 4]);
}

#[test]
fn case_preserved_when_lowercasing_off() {
    let mut reg = Registry::new();
    reg.initialize(lines(&["[UNK]", "Play", "play"]), "", false, 100, 1)
        .expect("initialize");
    let (ids, _, ok) = encode_ids(&reg, "Play play", 8);
    assert!(ok);
    assert_eq!(ids, vec![1, 2]);
}

#[test]
fn accent_stripping_removes_combining_marks() {
    let mut reg = Registry::new();
    reg.initialize(lines(&["[UNK]", "hello"]), "", true, 100, 1)
        .expect("initialize");
    // 'e' followed by a combining acute accent.
    let (ids, _, ok) = encode_ids(&reg, "HE\u{0301}LLO", 8);
    assert!(ok);
    assert_eq!(ids, vec![1]);
}

#[test]
fn cjk_characters_become_single_words() {
    let mut reg = Registry::new();
    reg.initialize(
        lines(&["[UNK]", "\u{4E2D}", "\u{56FD}"]),
        "",
        true,
        100,
        1,
    )
    .expect("initialize");
    let (ids, n, ok) = encode_ids(&reg, "\u{4E2D}\u{56FD}", 8);
    assert!(ok);
    assert_eq!(n, 2);
    assert_eq!(ids, vec![1, 2]);
}

#[test]
fn punctuation_runs_split_from_word_runs() {
    let mut reg = Registry::new();
    reg.initialize(lines(&["[UNK]", "don", "'", "t"]), "", true, 100, 1)
        .expect("initialize");
    let (ids, n, ok) = encode_ids(&reg, "don't", 8);
    assert!(ok);
    assert_eq!(n, 3);
    assert_eq!(ids, vec![1, 2, 3]);
}

#[test]
fn empty_input_yields_no_ids() {
    let reg = demo_registry("[UNK]", true, 100);
    let (ids, n, ok) = encode_ids(&reg, "", 8);
    assert!(ok);
    assert_eq!(n, 0);
    assert!(ids.is_empty());
}

#[test]
fn offsets_track_original_input() {
    let reg = demo_registry("[UNK]", true, 100);
    let inst = reg.active().expect("instance");
    let enc = inst.encode("Playing unknown").expect("encode");
    let offs = enc.get_offsets();
    assert_eq!(offs, vec![(0, 4), (4, 7), (8, 10), (10, 15)]);
}

#[test]
fn query_set_token_ids_truncates() {
    let mut q = Query::new(String::from("abc"));
    q.set_token_ids(&vec![9, 8, 7, 6], 3);
    assert_eq!(q.output_ids, vec![9, 8, 7]);
    assert_eq!(q.num_ids, 3);
    q.set_token_ids(&vec![9, 8], 5);
    assert_eq!(q.output_ids, vec![9, 8]);
    assert_eq!(q.num_ids, 2);
    assert_eq!(q.get_input_string().as_str(), "abc");
}

#[test]
fn added_token_list_from_string() {
    let toks = get_tokens_from_str("[UNK] [SEP] [PAD]");
    assert_eq!(toks.len(), 3);
    let first: String = toks[0].chars.iter().collect();
    assert_eq!(first.as_str(), "[UNK]");
    assert!(toks.iter().all(|t| t.special && t.single_word));
    // Splitting keeps empty pieces, as the original space split does.
    let empties = get_tokens_from_str("a  b");
    assert_eq!(empties.len(), 3);
    assert!(empties[1].chars.is_empty());
}

#[test]
fn single_word_rule_requires_boundaries() {
    // The special token abuts a word character, so the single-word
    // match is refused and the characters go through the model.
    let reg = demo_registry("[MASK]", true, 100);
    let (ids, n, ok) = encode_ids(&reg, "play[MASK]", 16);
    assert!(ok);
    // "play[mask]" splits into word/punctuation runs; none of the
    // pieces after "play" are in the vocabulary.
    assert!(n > 1);
    assert_eq!(ids[0], 1);
    assert!(!ids.contains(&5));
}

#[test]
fn duplicate_entries_resolve_to_first_id() {
    let mut reg = Registry::new();
    reg.initialize(lines(&["[UNK]", "play", "play"]), "", true, 100, 1)
        .expect("initialize");
    let (ids, _, ok) = encode_ids(&reg, "play", 8);
    assert!(ok);
    assert_eq!(ids, vec![1]);
}

#[test]
fn zero_length_limit_rejects_every_word() {
    let reg = demo_registry("[UNK]", true, 0);
    let (ids, n, ok) = encode_ids(&reg, "play", 8);
    assert!(ok);
    assert_eq!(n, 1);
    assert_eq!(ids, vec![0]);
}
