use file_index::document::{file_name, Document};
use file_index::index::InvertedIndex;

#[test]
fn builds_documents_in_path_order() {
    let paths = vec!["/tmp/a.txt".to_string(), "/tmp/sub/B.md".to_string()];
    let index = InvertedIndex::from_paths(&paths);
    let documents = index.documents();
    assert_eq!(documents.len(), 2);
    assert_eq!(documents[0].id, 0);
    assert_eq!(documents[0].file_name, "a.txt");
    assert_eq!(documents[0].file_path, "/tmp/a.txt");
    assert_eq!(documents[1].id, 1);
    assert_eq!(documents[1].file_name, "B.md");
    assert_eq!(documents[1].file_path, "/tmp/sub/B.md");
}

#[test]
fn posting_lists_hold_exactly_the_documents_of_each_token() {
    let paths = vec![
        "/tmp/a.txt".to_string(),
        "/tmp/sub/B.md".to_string(),
        "/tmp/tmp.txt".to_string(),
    ];
    let index = InvertedIndex::from_paths(&paths);
    let postings: Vec<(&str, Vec<usize>)> = index
        .postings()
        .iter()
        .map(|(term, ids)| (term.as_str(), ids.clone()))
        .collect();
    assert_eq!(
        postings,
        vec![
            ("a", vec![0]),
            ("b", vec![1]),
            ("md", vec![1]),
            ("sub", vec![1]),
            ("tmp", vec![0, 1, 2]),
            ("txt", vec![0, 2]),
        ]
    );
}

#[test]
fn empty_index_has_nothing() {
    let index = InvertedIndex::default();
    assert!(index.documents().is_empty());
    assert!(index.postings().is_empty());
    let index = InvertedIndex::new();
    assert!(index.documents().is_empty());
}

#[test]
fn file_name_is_the_last_component() {
    assert_eq!(file_name("/tmp/a.txt").as_deref(), Some("a.txt"));
    assert_eq!(file_name("a.txt").as_deref(), Some("a.txt"));
    assert_eq!(file_name("foo/.").as_deref(), Some("foo"));
    assert_eq!(file_name("foo.txt/.//").as_deref(), Some("foo.txt"));
    assert_eq!(file_name("./a").as_deref(), Some("a"));
    assert_eq!(file_name("a/../b").as_deref(), Some("b"));
    assert_eq!(file_name("foo.txt/.."), None);
    assert_eq!(file_name("/"), None);
    assert_eq!(file_name(""), None);
    assert_eq!(file_name("."), None);
    assert_eq!(file_name(".."), None);
    assert_eq!(file_name("..."), Some("...".to_string()));
    assert_eq!(file_name(".hidden").as_deref(), Some(".hidden"));
}

#[test]
fn document_from_path() {
    let document = Document::from_path(7, "/home/josé/música/canción.mp3");
    assert_eq!(document.id, 7);
    assert_eq!(document.file_name, "canción.mp3");
    assert_eq!(document.file_path, "/home/josé/música/canción.mp3");
}
