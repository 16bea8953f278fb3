use dashmap::DashMap;
use std::collections::HashMap;
use wordlist::context::ContextHolder;
use wordlist::ingest::build_desired_map;
use wordlist::ingest::context_from_line;
use wordlist::lessons::check_snapshot_config;
use wordlist::lessons::yield_concepts;
use wordlist::lessons::RunError;
use wordlist::rank::sort_by_freq;
use wordlist::reduce::fill_map;
use wordlist::reduce::strip_known;
use wordlist::wordset::WordSet;

fn id_of(mappings: &HashMap<u32, String>, w: &str) -> u32 {
    *mappings.iter().find(|(_, v)| v.as_str() == w).unwrap().0
}

fn corpus(lines: &[&str], known: &[&str]) -> (ContextHolder, HashMap<u32, String>) {
    let known: Vec<String> = known.iter().map(|s| s.to_string()).collect();
    let mut mappings: HashMap<u32, String> = HashMap::new();
    let mut holder = ContextHolder::new();
    for line in lines {
        let c = context_from_line(line, &known, &mut mappings);
        holder.push(c);
    }
    (holder, mappings)
}

#[test]
fn scenario_a_candidate_pool() {
    let (mut holder, mappings) = corpus(&["a b c", "b c", "c"], &[]);
    let knowns = WordSet::new();
    let mut acc: DashMap<u32, usize> = DashMap::new();
    let desired: HashMap<u32, usize> = HashMap::new();
    let r = strip_known(&mut holder, &knowns, &mut acc, &desired).unwrap();
    assert_eq!(r, vec![id_of(&mappings, "c")]);
    assert_eq!(acc.get(&id_of(&mappings, "b")).map(|v| *v), Some(1));
    assert_eq!(acc.get(&id_of(&mappings, "c")).map(|v| *v), Some(1));
    assert_eq!(acc.get(&id_of(&mappings, "a")).map(|v| *v), None);
}

#[test]
fn scenario_a_first_lesson() {
    let (holder, mappings) = corpus(&["a b c", "b c", "c"], &[]);
    let mut stream = yield_concepts(holder, mappings, HashMap::new());
    assert_eq!(stream.batch, 26);
    let lesson = stream.next_lesson().unwrap();
    assert_eq!(lesson, vec!["c".to_string()]);
    assert_eq!(stream.batch, 27);
}

#[test]
fn scenario_b_desired_is_not_manufactured() {
    let (holder, mappings) = corpus(&["a b c", "b c", "c"], &[]);
    let desired_words = vec!["a".to_string()];
    let desired = build_desired_map(&desired_words);
    let mut stream = yield_concepts(holder, mappings, desired);
    let lesson = stream.next_lesson().unwrap();
    // "a" is desired, but only "c" is one word away: desire never
    // manufactures an ineligible candidate.
    assert_eq!(lesson, vec!["c".to_string()]);
}

#[test]
fn scenario_c_snapshot_without_dictionary_is_fatal() {
    assert_eq!(
        check_snapshot_config(true, false),
        Err(RunError::MissingDictionary)
    );
    assert_eq!(check_snapshot_config(true, true), Ok(()));
    assert_eq!(check_snapshot_config(false, false), Ok(()));
    assert_eq!(check_snapshot_config(false, true), Ok(()));
}

#[test]
fn scenario_d_exhaustion_is_fatal() {
    let (holder, mappings) = corpus(&["x", "a b c"], &[]);
    let mut stream = yield_concepts(holder, mappings, HashMap::new());
    let lesson = stream.next_lesson().unwrap();
    assert_eq!(lesson, vec!["x".to_string()]);
    assert_eq!(stream.next_lesson(), Err(RunError::NoViableCandidates));
}

#[test]
fn concepts_shrink_and_skip_is_permanent() {
    let (mut holder, mappings) = corpus(&["c", "b c"], &[]);
    let sizes_before: Vec<usize> = holder.ctxs.iter().map(|c| c.concepts.len()).collect();
    let knowns = WordSet::new();
    let mut acc: DashMap<u32, usize> = DashMap::new();
    let desired: HashMap<u32, usize> = HashMap::new();
    strip_known(&mut holder, &knowns, &mut acc, &desired).unwrap();
    for (c, before) in holder.ctxs.iter().zip(sizes_before.iter()) {
        assert!(c.concepts.len() <= *before);
    }
    // Learn "c": the first sentence resolves and is flagged for good.
    let mut learned = WordSet::new();
    learned.insert(id_of(&mappings, "c"));
    strip_known(&mut holder, &learned, &mut acc, &desired).unwrap();
    assert!(holder.ctxs[0].skip);
    assert_eq!(holder.ctxs[0].concepts.len(), 0);
    // A later pass leaves the resolved sentence untouched.
    let more = WordSet::new();
    strip_known(&mut holder, &more, &mut acc, &desired).unwrap();
    assert!(holder.ctxs[0].skip);
}

#[test]
fn sort_by_freq_orders_ascending_and_is_idempotent() {
    let acc: DashMap<u32, usize> = DashMap::new();
    acc.insert(1, 5);
    acc.insert(2, 1);
    let mut items: Vec<u32> = vec![1, 2, 3];
    sort_by_freq(&mut items, &acc);
    // 3 is absent (weight 0), then 2 (weight 1), then 1 (weight 5).
    assert_eq!(items, vec![3, 2, 1]);
    let once = items.clone();
    sort_by_freq(&mut items, &acc);
    assert_eq!(items, once);
}

#[test]
fn desired_words_outrank_frequency() {
    // Candidates: "a" (desired, rank 1) and "b" (co-occurrence weight 1).
    let (mut holder, mappings) = corpus(&["a", "b", "b c"], &[]);
    let desired_words = vec!["a".to_string(), "z".to_string()];
    let desired = build_desired_map(&desired_words);
    let knowns = WordSet::new();
    let mut acc: DashMap<u32, usize> = DashMap::new();
    let r = strip_known(&mut holder, &knowns, &mut acc, &desired).unwrap();
    // Ascending rank order: the selection reads from the end, "a" first.
    assert_eq!(r, vec![id_of(&mappings, "b"), id_of(&mappings, "a")]);
}

#[test]
fn desired_map_ranks_from_the_end() {
    let xs = vec!["x".to_string()];
    let ys = vec!["y".to_string()];
    let id_x = *build_desired_map(&xs).keys().next().unwrap();
    let id_y = *build_desired_map(&ys).keys().next().unwrap();
    let both = vec!["x".to_string(), "y".to_string()];
    let m = build_desired_map(&both);
    assert_eq!(m.get(&id_x), Some(&1));
    assert_eq!(m.get(&id_y), Some(&0));
}

#[test]
fn fill_map_weights_by_sentence_size() {
    let (holder, mappings) = corpus(&["a b c", "b c"], &[]);
    let mut acc: DashMap<u32, usize> = DashMap::new();
    fill_map(&holder, &mut acc);
    assert_eq!(acc.get(&id_of(&mappings, "a")).map(|v| *v), Some(3));
    assert_eq!(acc.get(&id_of(&mappings, "b")).map(|v| *v), Some(5));
    assert_eq!(acc.get(&id_of(&mappings, "c")).map(|v| *v), Some(5));
}

#[test]
fn tokenization_lowercases_and_deduplicates() {
    let known: Vec<String> = Vec::new();
    let mut mappings: HashMap<u32, String> = HashMap::new();
    let c = context_from_line("Hello WORLD hello", &known, &mut mappings);
    assert_eq!(c.concepts.len(), 2);
    assert!(!c.skip);
    let mut texts: Vec<&str> = mappings.values().map(|s| s.as_str()).collect();
    texts.sort();
    assert_eq!(texts, vec!["hello", "world"]);
}

#[test]
fn tokenization_strips_punctuation() {
    let known: Vec<String> = Vec::new();
    let mut mappings: HashMap<u32, String> = HashMap::new();
    let c = context_from_line("a, b!", &known, &mut mappings);
    assert_eq!(c.concepts.len(), 2);
}

#[test]
fn known_words_are_discarded_at_ingestion() {
    let known = vec!["a".to_string()];
    let mut mappings: HashMap<u32, String> = HashMap::new();
    let c = context_from_line("a b", &known, &mut mappings);
    assert_eq!(c.concepts.len(), 1);
    assert_eq!(mappings.len(), 1);
}

#[test]
fn empty_line_resolves_on_first_pass() {
    let (mut holder, _mappings) = corpus(&["", "c"], &[]);
    assert_eq!(holder.ctxs[0].concepts.len(), 0);
    assert!(!holder.ctxs[0].skip);
    let knowns = WordSet::new();
    let mut acc: DashMap<u32, usize> = DashMap::new();
    let desired: HashMap<u32, usize> = HashMap::new();
    strip_known(&mut holder, &knowns, &mut acc, &desired).unwrap();
    assert!(holder.ctxs[0].skip);
}

#[test]
fn lesson_words_drop_ids_without_text() {
    // A snapshot-style corpus: the dictionary lacks the id of one candidate.
    let mut ids = Vec::new();
    ids.push(7u32);
    let ws = WordSet::from_vec(&ids);
    let c = wordlist::context::Context::from_set(ws);
    let mut holder = ContextHolder::new();
    holder.push(c);
    let dict: HashMap<u32, String> = HashMap::new();
    let mut stream = yield_concepts(holder, dict, HashMap::new());
    let lesson = stream.next_lesson().unwrap();
    assert!(lesson.is_empty());
    // Nothing was emitted, so the batch size did not grow.
    assert_eq!(stream.batch, 26);
}
