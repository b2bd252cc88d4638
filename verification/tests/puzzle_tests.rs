use wordladder_engine::graph::WordGraph;
use wordladder_engine::puzzle::{Difficulty, Puzzle, PuzzleGenerator};

fn words(list: &[&str]) -> Vec<String> {
    list.iter().map(|s| s.to_string()).collect()
}

fn generator(dict: &[&str], base: &[&str]) -> PuzzleGenerator {
    let mut graph = WordGraph::new();
    graph.load_dictionary(words(dict));
    graph.load_base_words(words(base));
    PuzzleGenerator::new(graph)
}

#[test]
fn test_verify_puzzle() {
    let generator = generator(&["cat", "dog", "cog", "cot"], &[]);
    assert!(generator.verify_puzzle("cat,cot,cog,dog").unwrap());
    assert!(!generator.verify_puzzle("cat,dog").unwrap());
}

#[test]
fn test_puzzle_difficulty() {
    let puzzle = Puzzle::new(
        "a".to_string(),
        "b".to_string(),
        vec![
            "a".to_string(),
            "b".to_string(),
            "c".to_string(),
            "d".to_string(),
        ],
    );
    assert!(matches!(puzzle.difficulty, Difficulty::Easy));
}

fn path_of_steps(steps: usize) -> Vec<String> {
    (0..steps + 1).map(|i| format!("w{}", i)).collect()
}

#[test]
fn test_difficulty_tier_boundaries() {
    assert_eq!(Puzzle::new("a".into(), "b".into(), path_of_steps(0)).difficulty, Difficulty::Hard);
    assert_eq!(Puzzle::new("a".into(), "b".into(), path_of_steps(2)).difficulty, Difficulty::Hard);
    assert_eq!(Puzzle::new("a".into(), "b".into(), path_of_steps(3)).difficulty, Difficulty::Easy);
    assert_eq!(Puzzle::new("a".into(), "b".into(), path_of_steps(4)).difficulty, Difficulty::Easy);
    assert_eq!(
        Puzzle::new("a".into(), "b".into(), path_of_steps(5)).difficulty,
        Difficulty::Medium
    );
    assert_eq!(
        Puzzle::new("a".into(), "b".into(), path_of_steps(7)).difficulty,
        Difficulty::Medium
    );
    assert_eq!(Puzzle::new("a".into(), "b".into(), path_of_steps(8)).difficulty, Difficulty::Hard);
    assert_eq!(Puzzle::new("a".into(), "b".into(), path_of_steps(12)).difficulty, Difficulty::Hard);
}

#[test]
fn test_generate_puzzle_scenario() {
    let generator = generator(&["cat", "cot", "cog", "dog"], &[]);
    let puzzle = generator.generate_puzzle("cat", "dog").unwrap();
    assert_eq!(puzzle.start, "cat");
    assert_eq!(puzzle.end, "dog");
    assert_eq!(puzzle.path, vec!["cat", "cot", "cog", "dog"]);
    assert_eq!(puzzle.difficulty, Difficulty::Easy);
}

#[test]
fn test_generate_puzzle_no_path() {
    let generator = generator(&["cat", "dog"], &[]);
    assert!(generator.generate_puzzle("cat", "dog").is_none());
}

#[test]
fn test_verify_puzzle_trims_and_lowercases() {
    let generator = generator(&[], &[]);
    assert!(generator.verify_puzzle("cat, COT").unwrap());
    assert!(generator.verify_puzzle("  CAT ,cot , cog,DOG").unwrap());
    assert!(!generator.verify_puzzle("cat, CAT").unwrap());
}

#[test]
fn test_verify_puzzle_rejects_short_input() {
    let generator = generator(&[], &[]);
    let err = generator.verify_puzzle("cat").unwrap_err();
    assert_eq!(err, "Puzzle must have at least 2 words");
    assert!(generator.verify_puzzle("").is_err());
}

#[test]
fn test_verify_puzzle_length_mismatch() {
    let generator = generator(&[], &[]);
    assert!(!generator.verify_puzzle("cat,cart").unwrap());
}

#[test]
fn test_pick_random_words() {
    let generator = generator(&["cat", "dog", "bat", "rat", "mat"], &["cat", "dog"]);
    let (start, end) = generator.pick_random_words().unwrap();
    assert!(
        (start == "cat" && end == "dog") || (start == "dog" && end == "cat"),
        "unexpected pair: {} {}",
        start,
        end
    );
}

#[test]
fn test_pick_random_words_no_base_words() {
    let generator = generator(&["cat", "dog"], &[]);
    let err = generator.pick_random_words().unwrap_err();
    assert_eq!(err, "No base words loaded");
}

#[test]
fn test_pick_random_words_base_words_not_in_dictionary() {
    let generator = generator(&["cat", "dog"], &["fox", "owl"]);
    let err = generator.pick_random_words().unwrap_err();
    assert_eq!(err, "No base words loaded");
}

#[test]
fn test_pick_random_words_no_shared_length() {
    let generator = generator(&["cat", "mouse"], &["cat", "mouse"]);
    let err = generator.pick_random_words().unwrap_err();
    assert_eq!(err, "No word lengths with at least 2 valid base words");
}

#[test]
fn test_generate_batch_easy() {
    let generator = generator(&["cat", "cot", "cog", "dog"], &["cat", "dog"]);
    let puzzles = generator.generate_batch(2, Difficulty::Easy);
    assert_eq!(puzzles.len(), 2);
    for p in &puzzles {
        assert_eq!(p.difficulty, Difficulty::Easy);
        assert_eq!(p.path.len(), 4);
    }
}

#[test]
fn test_generate_batch_unreachable_difficulty() {
    // the only ladder between the base words has 3 steps, so no hard
    // puzzle can ever be sampled; the bounded loop must come back short
    let generator = generator(&["cat", "cot", "cog", "dog"], &["cat", "dog"]);
    let puzzles = generator.generate_batch(1, Difficulty::Hard);
    assert!(puzzles.len() <= 1);
    for p in &puzzles {
        assert_eq!(p.difficulty, Difficulty::Hard);
    }
}

#[test]
fn test_generate_batch_no_base_words() {
    let generator = generator(&["cat", "dog"], &[]);
    let puzzles = generator.generate_batch(3, Difficulty::Easy);
    assert!(puzzles.is_empty());
}

#[test]
fn test_generate_batch_no_shared_length() {
    // both base words are eligible but no two share a length, so no
    // endpoint pair can ever be drawn and the batch is empty
    let generator = generator(&["cat", "mouse"], &["cat", "mouse"]);
    let puzzles = generator.generate_batch(3, Difficulty::Easy);
    assert!(puzzles.is_empty());
}
