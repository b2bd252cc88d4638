use wordladder_engine::graph::WordGraph;

fn words(list: &[&str]) -> Vec<String> {
    list.iter().map(|s| s.to_string()).collect()
}

#[test]
fn test_load_dictionary() {
    let mut graph = WordGraph::new();
    graph.load_dictionary(words(&["cat", "dog", "bat", "rat", "mat"]));

    assert!(graph.get_words().contains(&"cat".to_string()));
    assert!(graph.get_words().contains(&"dog".to_string()));
    assert_eq!(graph.get_words().len(), 5);
}

#[test]
fn test_find_shortest_path() {
    let mut graph = WordGraph::new();
    graph.load_dictionary(words(&["cat", "dog", "cog", "cot"]));

    let path = graph.find_shortest_path("cat", "dog");
    assert!(path.is_some());
    let path = path.unwrap();
    assert_eq!(path, vec!["cat", "cot", "cog", "dog"]);
}

#[test]
fn test_load_dictionary_deduplicates() {
    let mut graph = WordGraph::new();
    graph.load_dictionary(words(&["cat", "cat", "dog", "dog", "dog"]));
    assert_eq!(graph.get_words().len(), 2);
}

#[test]
fn test_load_base_words() {
    let mut graph = WordGraph::new();
    graph.load_base_words(words(&["cat", "dog", "cat"]));
    assert_eq!(graph.get_base_words().len(), 2);
    assert!(graph.get_base_words().contains(&"cat".to_string()));
}

#[test]
fn test_find_shortest_path_same_word() {
    let mut graph = WordGraph::new();
    graph.load_dictionary(words(&["cat", "cot"]));
    let path = graph.find_shortest_path("cat", "cat");
    assert_eq!(path.unwrap(), vec!["cat"]);
}

#[test]
fn test_find_shortest_path_disconnected() {
    let mut graph = WordGraph::new();
    graph.load_dictionary(words(&["cat", "dog"]));
    assert!(graph.find_shortest_path("cat", "dog").is_none());
}

#[test]
fn test_find_shortest_path_absent_word() {
    let mut graph = WordGraph::new();
    graph.load_dictionary(words(&["cat", "cot"]));
    assert!(graph.find_shortest_path("cat", "dog").is_none());
}

#[test]
fn test_find_shortest_path_is_optimal() {
    // two routes from "cat" to "cot": the direct edge and a detour over
    // "bat" and "bot"; search must take the one-step route
    let mut graph = WordGraph::new();
    graph.load_dictionary(words(&["cat", "cot", "bat", "bot"]));
    let path = graph.find_shortest_path("cat", "cot").unwrap();
    assert_eq!(path.len(), 2);
}

#[test]
fn test_rebuilds_graph_on_reload() {
    let mut graph = WordGraph::new();
    graph.load_dictionary(words(&["cat", "cot", "cog", "dog"]));
    assert!(graph.find_shortest_path("cat", "dog").is_some());
    graph.load_dictionary(words(&["cat", "dog"]));
    assert!(graph.find_shortest_path("cat", "dog").is_none());
    assert_eq!(graph.get_words().len(), 2);
}
