use garc::history::{newest_first, split_trace_history};
use garc::mesh::trace_history_file_name;

#[test]
fn history_lists_newest_first() {
    let names = vec![
        trace_history_file_name(20),
        trace_history_file_name(3),
        trace_history_file_name(100),
    ];
    assert_eq!(
        newest_first(names),
        vec![
            "00000000000000000100.json",
            "00000000000000000020.json",
            "00000000000000000003.json"
        ]
    );
}

#[test]
fn persisted_trace_history_is_bounded() {
    let names: Vec<String> = (0..12u128).map(trace_history_file_name).collect();
    let (kept, pruned) = split_trace_history(names);
    assert_eq!(kept.len(), 10);
    assert_eq!(kept[0], "00000000000000000011.json");
    assert_eq!(kept[9], "00000000000000000002.json");
    assert_eq!(
        pruned,
        vec!["00000000000000000001.json", "00000000000000000000.json"]
    );
}

#[test]
fn short_history_keeps_everything() {
    let (kept, pruned) = split_trace_history(vec!["b".to_owned(), "a".to_owned()]);
    assert_eq!(kept, vec!["b", "a"]);
    assert!(pruned.is_empty());
    let (kept, pruned) = split_trace_history(Vec::new());
    assert!(kept.is_empty() && pruned.is_empty());
}
