use wordladder_engine::puzzle::{Difficulty, Puzzle};
use wordladder_engine::exporters::sql::{SqlExportConfig, SqlExporter};

fn create_test_puzzle(start: &str, end: &str, path: Vec<String>, difficulty: Difficulty) -> Puzzle {
    Puzzle {
        start: start.to_string(),
        end: end.to_string(),
        path,
        difficulty,
    }
}

#[test]
fn test_generate_puzzle_id() {
    let mut exporter = SqlExporter::new();
    let puzzle = create_test_puzzle(
        "cat",
        "dog",
        vec!["cat".to_string(), "dog".to_string()],
        Difficulty::Easy,
    );

    let id1 = exporter.generate_puzzle_id(&puzzle);
    let id2 = exporter.generate_puzzle_id(&puzzle);

    assert_eq!(id1, "cat_dog_001");
    assert_eq!(id2, "cat_dog_002");
}

#[test]
fn test_escape_sql_string() {
    let exporter = SqlExporter::new();

    assert_eq!(exporter.escape_sql_string("normal"), "normal");
    assert_eq!(exporter.escape_sql_string("don't"), "don''t");
    assert_eq!(exporter.escape_sql_string("O'Connor"), "O''Connor");
}

#[test]
fn test_difficulty_to_string() {
    let exporter = SqlExporter::new();

    assert_eq!(exporter.difficulty_to_string(Difficulty::Easy), "easy");
    assert_eq!(exporter.difficulty_to_string(Difficulty::Medium), "medium");
    assert_eq!(exporter.difficulty_to_string(Difficulty::Hard), "hard");
}

#[test]
fn test_generate_batch_insert() {
    let mut exporter = SqlExporter::new();
    let puzzles = vec![create_test_puzzle(
        "cat",
        "dog",
        vec!["cat".to_string(), "cot".to_string(), "dog".to_string()],
        Difficulty::Easy,
    )];

    let sql = exporter.generate_batch_insert(&puzzles);
    assert!(sql.contains("INSERT INTO puzzles"));
    assert!(sql.contains("'cat_dog_001'"));
    assert!(sql.contains("'cat'"));
    assert!(sql.contains("'dog'"));
    assert!(sql.contains("2")); // min_steps
    assert!(sql.contains("'easy'"));
}

#[test]
fn test_create_balanced_set() {
    let exporter = SqlExporter::new();
    let puzzles = vec![
        create_test_puzzle(
            "a",
            "b",
            vec!["a".to_string(), "b".to_string()],
            Difficulty::Easy,
        ),
        create_test_puzzle(
            "c",
            "d",
            vec!["c".to_string(), "d".to_string(), "e".to_string()],
            Difficulty::Easy,
        ),
        create_test_puzzle(
            "f",
            "g",
            vec![
                "f".to_string(),
                "g".to_string(),
                "h".to_string(),
                "i".to_string(),
                "j".to_string(),
                "k".to_string(),
            ],
            Difficulty::Medium,
        ),
        create_test_puzzle(
            "l",
            "m",
            vec![
                "l".to_string(),
                "m".to_string(),
                "n".to_string(),
                "o".to_string(),
                "p".to_string(),
                "q".to_string(),
                "r".to_string(),
                "s".to_string(),
                "t".to_string(),
            ],
            Difficulty::Hard,
        ),
    ];

    // per-tier targets of 5, 3 and 2 out of 10, as halves, three tenths
    // and two tenths of the total
    let balanced = exporter.create_balanced_set(&puzzles, 10, 5, 3, 2);

    let easy_count = balanced
        .iter()
        .filter(|p| matches!(p.difficulty, Difficulty::Easy))
        .count();
    let medium_count = balanced
        .iter()
        .filter(|p| matches!(p.difficulty, Difficulty::Medium))
        .count();
    let hard_count = balanced
        .iter()
        .filter(|p| matches!(p.difficulty, Difficulty::Hard))
        .count();

    assert_eq!(balanced.len(), 10); // Should return exactly the requested count
    assert!(easy_count >= 1); // Should have at least some easy puzzles
    assert!(medium_count >= 1); // Should have at least some medium puzzles
    assert!(hard_count >= 1); // Should have at least some hard puzzles
}

#[test]
fn test_create_balanced_set_empty_pool() {
    let exporter = SqlExporter::new();
    let puzzles: Vec<Puzzle> = Vec::new();
    let balanced = exporter.create_balanced_set(&puzzles, 10, 5, 3, 2);
    assert!(balanced.is_empty());
}

#[test]
fn test_create_balanced_set_shortfall_goes_to_medium() {
    let exporter = SqlExporter::new();
    let puzzles = vec![
        create_test_puzzle("a", "b", vec!["a".to_string(), "b".to_string()], Difficulty::Easy),
        create_test_puzzle(
            "f",
            "g",
            vec![
                "f".to_string(),
                "g".to_string(),
                "h".to_string(),
                "i".to_string(),
                "j".to_string(),
                "k".to_string(),
            ],
            Difficulty::Medium,
        ),
    ];
    // raw targets sum to 4; the shortfall of 2 lands on the medium tier
    let balanced = exporter.create_balanced_set(&puzzles, 6, 2, 1, 1);
    assert_eq!(balanced.len(), 6);
    let medium_count = balanced
        .iter()
        .filter(|p| matches!(p.difficulty, Difficulty::Medium))
        .count();
    assert!(medium_count >= 3);
}

#[test]
fn test_export_dictionary() {
    let mut exporter = SqlExporter::new();
    let words: Vec<String> = ["cat", "dog", "bat"]
        .iter()
        .map(|s| s.to_string())
        .collect();

    let sql = exporter.export_dictionary(&words).unwrap();

    // Check that the CREATE TABLE statement is present
    assert!(sql.contains("CREATE TABLE IF NOT EXISTS dictionary"));

    // Check that the INSERT statements are present for each word
    for word in &["cat", "dog", "bat"] {
        assert!(sql.contains(&format!("('{}', {})", word, word.len())));
    }

    // Check that the SQL ends with a semicolon
    assert!(sql.trim().ends_with(';'));
}

#[test]
fn test_export_puzzles() {
    let mut exporter = SqlExporter::with_config(SqlExportConfig {
        batch_size: 1,
        include_schema: true,
        include_comments: true,
    });
    let puzzles = vec![
        create_test_puzzle(
            "cat",
            "dog",
            vec!["cat".to_string(), "cot".to_string(), "cog".to_string(), "dog".to_string()],
            Difficulty::Easy,
        ),
        create_test_puzzle(
            "cat",
            "dog",
            vec!["cat".to_string(), "cot".to_string(), "cog".to_string(), "dog".to_string()],
            Difficulty::Easy,
        ),
    ];
    let sql = exporter.export_puzzles(&puzzles).unwrap();
    assert!(sql.contains("CREATE TABLE IF NOT EXISTS puzzles"));
    assert!(sql.contains("-- Generated 2 puzzles"));
    assert!(sql.contains("'cat_dog_001'"));
    assert!(sql.contains("'cat_dog_002'"));
    assert!(sql.contains(", 3, 'easy')"));
    // a batch size of one yields one INSERT statement per puzzle
    assert_eq!(sql.matches("INSERT INTO puzzles").count(), 2);
}

#[test]
fn test_export_puzzles_without_schema() {
    let mut exporter = SqlExporter::new().with_include_schema(false);
    let puzzles = vec![create_test_puzzle(
        "cat",
        "dog",
        vec!["cat".to_string(), "dog".to_string()],
        Difficulty::Hard,
    )];
    let sql = exporter.export_puzzles(&puzzles).unwrap();
    assert!(!sql.contains("CREATE TABLE"));
    assert!(sql.contains("'hard'"));
    assert!(sql.contains(", 1, 'hard')"));
}

#[test]
fn test_escape_in_export() {
    let mut exporter = SqlExporter::new();
    let puzzles = vec![create_test_puzzle(
        "o'er",
        "e'er",
        vec!["o'er".to_string(), "e'er".to_string()],
        Difficulty::Hard,
    )];
    let sql = exporter.generate_batch_insert(&puzzles);
    assert!(sql.contains("'o''er'"));
    assert!(sql.contains("'e''er'"));
}
