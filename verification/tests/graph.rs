use fix_docs::flowchart::{move_branch_labels, read_declaration, read_edge, render_edge};
use fix_docs::graph::{choose_edge, node_text_of, unlabeled_of, Edge};
use fix_docs::migrate::{choice_of, migrate_labels, outgoing_of, plan_moves};
use fix_docs::score::{
    edge_score, is_branch_label, label_polarity, polarity_of_token, score_of_lowered, Polarity,
};
use fix_docs::textmap::TextMap;

fn edge(idx: usize, src: &str, label: Option<&str>, dst: &str) -> Edge {
    Edge {
        line_idx: idx,
        indent: String::new(),
        src: src.to_string(),
        arrow: "-->".to_string(),
        label: label.map(|l| l.to_string()),
        dst: dst.to_string(),
    }
}

fn labels(pairs: &[(&str, &str)]) -> TextMap {
    let mut map = TextMap::new();
    for (id, text) in pairs {
        map.insert(id.to_string(), text.to_string());
    }
    map
}

fn lines(text: &[&str]) -> Vec<String> {
    text.iter().map(|l| l.to_string()).collect()
}

fn label_of(edges: &[Edge]) -> Vec<Option<String>> {
    edges.iter().map(|e| e.label.clone()).collect()
}

#[test]
fn branch_tokens_are_told_whatever_their_case() {
    assert!(is_branch_label(&Some("yes".to_string())));
    assert!(is_branch_label(&Some(" No ".to_string())));
    assert!(is_branch_label(&Some("TRUE".to_string())));
    assert!(is_branch_label(&Some("False".to_string())));
    assert!(!is_branch_label(&Some("maybe".to_string())));
    assert!(!is_branch_label(&Some("yes!".to_string())));
    assert!(!is_branch_label(&Some(String::new())));
    assert!(!is_branch_label(&None));
}

#[test]
fn polarity_follows_the_token() {
    assert_eq!(label_polarity("yes"), Some(Polarity::Positive));
    assert_eq!(label_polarity("\tTrue\n"), Some(Polarity::Positive));
    assert_eq!(label_polarity("NO"), Some(Polarity::Negative));
    assert_eq!(label_polarity("false"), Some(Polarity::Negative));
    assert_eq!(label_polarity("y"), None);
    assert_eq!(label_polarity(""), None);
}

#[test]
fn tokens_and_lowered_texts() {
    assert_eq!(polarity_of_token("yes"), Some(Polarity::Positive));
    assert_eq!(polarity_of_token("true"), Some(Polarity::Positive));
    assert_eq!(polarity_of_token("no"), Some(Polarity::Negative));
    assert_eq!(polarity_of_token("false"), Some(Polarity::Negative));
    assert_eq!(polarity_of_token("Yes"), None);
    assert_eq!(polarity_of_token(" yes"), None);
    assert_eq!(score_of_lowered("request failed", Some(Polarity::Positive)), -1);
    assert_eq!(score_of_lowered("Request Failed", Some(Polarity::Positive)), 0);
    assert_eq!(score_of_lowered("ready to proceed", Some(Polarity::Negative)), -2);
    assert_eq!(score_of_lowered("ready to proceed", None), 0);
}

#[test]
fn score_counts_hint_words() {
    let pos = Some(Polarity::Positive);
    let neg = Some(Polarity::Negative);
    assert_eq!(edge_score("Request Failed", pos), -1);
    assert_eq!(edge_score("Request Failed", neg), 1);
    assert_eq!(edge_score("Success", pos), 1);
    assert_eq!(edge_score("Proceed to USE the ready set", pos), 3);
    assert_eq!(edge_score("not connected: timeout error", pos), 1 - 3);
    assert_eq!(edge_score("not connected: timeout error", neg), 3 - 1);
    assert_eq!(edge_score("error error error", neg), 1);
    assert_eq!(edge_score("Node D", pos), 0);
    assert_eq!(edge_score("Success", None), 0);
    assert_eq!(edge_score("", neg), 0);
}

#[test]
fn every_hint_word_counts_once() {
    let all_pos = "add use enable create remove success ready connected established proceed continue";
    let all_neg = "fail error invalid reject timeout blocked missing not false empty return skip default";
    assert_eq!(edge_score(all_pos, Some(Polarity::Positive)), 11);
    assert_eq!(edge_score(all_neg, Some(Polarity::Negative)), 13);
    assert_eq!(edge_score(all_neg, Some(Polarity::Positive)), -13);
}

#[test]
fn node_text_is_the_label_or_the_identifier() {
    let map = labels(&[("D", "first"), ("E", "Success"), ("D", "Request Failed")]);
    assert_eq!(node_text_of(&map, &"D".to_string()), "Request Failed");
    assert_eq!(node_text_of(&map, &"E".to_string()), "Success");
    assert_eq!(node_text_of(&map, &"success".to_string()), "success");
}

#[test]
fn choice_among_candidates() {
    let edges = vec![
        edge(0, "B", Some("yes"), "C"),
        edge(1, "C", None, "D"),
        edge(2, "C", None, "E"),
        edge(3, "C", Some("x"), "F"),
    ];
    let map = labels(&[("D", "Request Failed"), ("E", "Success"), ("F", "ready to proceed")]);
    let pos = Some(Polarity::Positive);
    let neg = Some(Polarity::Negative);
    assert_eq!(choose_edge(&edges, &map, &vec![], pos), None);
    assert_eq!(choose_edge(&edges, &map, &vec![1], pos), Some(1));
    assert_eq!(choose_edge(&edges, &map, &vec![1, 2], pos), Some(2));
    assert_eq!(choose_edge(&edges, &map, &vec![1, 2], neg), Some(1));
    assert_eq!(choose_edge(&edges, &map, &vec![1, 2, 3], pos), Some(3));
    assert_eq!(choose_edge(&edges, &map, &vec![2, 2], pos), None);
    assert_eq!(choose_edge(&edges, &map, &vec![1, 2], None), None);
    assert_eq!(choose_edge(&edges, &map, &vec![1, 3], None), Some(1));
    assert_eq!(choose_edge(&edges, &map, &vec![1, 3], neg), Some(1));
    let unknown = TextMap::new();
    assert_eq!(choose_edge(&edges, &unknown, &vec![1, 2], pos), None);
    assert_eq!(choose_edge(&edges, &unknown, &vec![2, 3], pos), Some(2));
    assert_eq!(unlabeled_of(&edges, &vec![0, 1, 2, 3]), vec![1, 2]);
}

#[test]
fn identifiers_stand_in_for_missing_labels() {
    let edges = vec![
        edge(0, "A", Some("no"), "check"),
        edge(1, "check", None, "on_error"),
        edge(2, "check", None, "on_success"),
    ];
    let mut moved = edges;
    migrate_labels(&mut moved, &TextMap::new());
    assert_eq!(label_of(&moved), vec![None, Some("no".to_string()), None]);
}

#[test]
fn outgoing_edges_keep_their_order() {
    let edges = vec![
        edge(0, "A", None, "B"),
        edge(1, "B", None, "C"),
        edge(2, "A", None, "C"),
        edge(3, "a", None, "C"),
    ];
    assert_eq!(outgoing_of(&edges, &"A".to_string()), vec![0, 2]);
    assert_eq!(outgoing_of(&edges, &"C".to_string()), Vec::<usize>::new());
}

#[test]
fn a_label_that_moved_is_no_candidate_again() {
    let mut edges = vec![
        edge(0, "A", Some("yes"), "C"),
        edge(1, "B", Some("no"), "C"),
        edge(2, "C", None, "D"),
        edge(3, "C", None, "E"),
    ];
    let map = labels(&[("D", "Success"), ("E", "Node E")]);
    migrate_labels(&mut edges, &map);
    assert_eq!(
        label_of(&edges),
        vec![None, Some("no".to_string()), Some("yes".to_string()), None]
    );
}

#[test]
fn an_edge_receives_one_label_only() {
    let mut edges = vec![
        edge(0, "A", Some("yes"), "C"),
        edge(1, "B", Some("true"), "C"),
        edge(2, "C", None, "D"),
        edge(3, "C", None, "E"),
    ];
    let map = labels(&[("D", "Success"), ("E", "Node E")]);
    assert_eq!(choice_of(&edges, &map, 0), Some(2));
    assert_eq!(choice_of(&edges, &map, 1), Some(2));
    assert_eq!(choice_of(&edges, &map, 2), None);
    assert_eq!(plan_moves(&edges, &map), vec![Some(2), None, None, None]);
    migrate_labels(&mut edges, &map);
    assert_eq!(
        label_of(&edges),
        vec![None, Some("true".to_string()), Some("yes".to_string()), None]
    );
}

#[test]
fn a_source_with_two_edges_keeps_its_label() {
    let mut edges = vec![
        edge(0, "A", Some("yes"), "C"),
        edge(1, "A", None, "X"),
        edge(2, "C", None, "D"),
        edge(3, "C", None, "E"),
    ];
    let map = labels(&[("D", "Success"), ("E", "Failure")]);
    migrate_labels(&mut edges, &map);
    assert_eq!(label_of(&edges), vec![Some("yes".to_string()), None, None, None]);
}

#[test]
fn a_target_with_one_edge_receives_nothing() {
    let mut edges = vec![edge(0, "A", Some("yes"), "C"), edge(1, "C", None, "D")];
    migrate_labels(&mut edges, &labels(&[("D", "Success")]));
    assert_eq!(label_of(&edges), vec![Some("yes".to_string()), None]);
}

#[test]
fn the_only_open_edge_takes_the_label() {
    let mut edges = vec![
        edge(0, "A", Some("No"), "C"),
        edge(1, "C", Some("retry"), "D"),
        edge(2, "C", None, "E"),
    ];
    migrate_labels(&mut edges, &labels(&[("E", "Success")]));
    assert_eq!(label_of(&edges), vec![None, Some("retry".to_string()), Some("No".to_string())]);
}

#[test]
fn labelled_edges_of_the_target_leave_nothing_to_choose() {
    let mut edges = vec![
        edge(0, "A", Some("yes"), "C"),
        edge(1, "C", Some("a"), "D"),
        edge(2, "C", Some("b"), "E"),
    ];
    migrate_labels(&mut edges, &TextMap::new());
    assert_eq!(
        label_of(&edges),
        vec![Some("yes".to_string()), Some("a".to_string()), Some("b".to_string())]
    );
}

#[test]
fn edges_are_read_from_lines() {
    let e = read_edge("  A1 -.->|\"maybe so\"| B_2  ", 4).unwrap();
    assert_eq!(e.line_idx, 4);
    assert_eq!(e.indent, "  ");
    assert_eq!(e.src, "A1");
    assert_eq!(e.arrow, "-.->");
    assert_eq!(e.label, Some("maybe so".to_string()));
    assert_eq!(e.dst, "B_2");
    let plain = read_edge("A==>B", 0).unwrap();
    assert_eq!(plain.arrow, "==>");
    assert_eq!(plain.label, None);
    let empty = read_edge("A-->|\"\"|B", 0).unwrap();
    assert_eq!(empty.label, Some(String::new()));
    assert!(read_edge("A --> B --> C", 0).is_none());
    assert!(read_edge("A[\"x\"] --> B", 0).is_none());
    assert!(read_edge("A -- B", 0).is_none());
    assert!(read_edge("", 0).is_none());
}

#[test]
fn edges_are_written_with_single_spaces() {
    assert_eq!(render_edge(&edge(0, "A", None, "B")), "A --> B");
    assert_eq!(render_edge(&edge(0, "A", Some("yes"), "B")), "A --> |\"yes\"| B");
    assert_eq!(render_edge(&edge(0, "A", Some(""), "B")), "A --> |\"\"| B");
    let mut e = edge(0, "A", Some("no"), "B");
    e.indent = "\t ".to_string();
    e.arrow = "-.->".to_string();
    assert_eq!(render_edge(&e), "\t A -.-> |\"no\"| B");
}

#[test]
fn declarations_are_read_from_lines() {
    assert_eq!(
        read_declaration("    D[\"Request Failed\"]"),
        Some(("D".to_string(), "Request Failed".to_string()))
    );
    assert_eq!(
        read_declaration("A[\"one\"] --> B[\"two\"]"),
        Some(("A".to_string(), "one".to_string()))
    );
    assert_eq!(read_declaration("[\"no id\"]"), None);
    assert_eq!(read_declaration("A[plain]"), None);
}

#[test]
fn lines_that_state_no_edge_stay() {
    let mut block = lines(&[
        "flowchart TD",
        "  %% a comment",
        "  A   -->B",
        "  A[\"Start here\"] --> B",
        "  subgraph one",
        "",
    ]);
    let expected = lines(&[
        "flowchart TD",
        "  %% a comment",
        "  A --> B",
        "  A[\"Start here\"] --> B",
        "  subgraph one",
        "",
    ]);
    move_branch_labels(&mut block);
    assert_eq!(block, expected);
}

#[test]
fn the_last_declaration_of_a_node_counts() {
    let mut block = lines(&[
        "A-->|\"yes\"|B",
        "B-->C",
        "B-->D",
        "C[\"Success\"]",
        "D[\"Success\"]",
        "C[\"Failure\"]",
    ]);
    move_branch_labels(&mut block);
    assert_eq!(block[0], "A --> B");
    assert_eq!(block[1], "B --> C");
    assert_eq!(block[2], "B --> |\"yes\"| D");
}

#[test]
fn labels_are_neither_lost_nor_doubled() {
    let mut edges = vec![
        edge(0, "A", Some("yes"), "C"),
        edge(1, "B", Some("yes"), "C"),
        edge(2, "X", Some("no"), "C"),
        edge(3, "C", None, "D"),
        edge(4, "C", None, "E"),
        edge(5, "C", Some("kept"), "F"),
    ];
    let map = labels(&[("D", "Failure"), ("E", "Success"), ("F", "Success")]);
    let mut before: Vec<Option<String>> = label_of(&edges);
    migrate_labels(&mut edges, &map);
    let mut after = label_of(&edges);
    assert_eq!(
        after,
        vec![
            None,
            Some("yes".to_string()),
            None,
            Some("no".to_string()),
            Some("yes".to_string()),
            Some("kept".to_string()),
        ]
    );
    before.sort();
    after.sort();
    assert_eq!(before, after);
    let settled = label_of(&edges);
    migrate_labels(&mut edges, &map);
    assert_eq!(label_of(&edges), settled);
}

#[test]
fn a_later_turn_can_free_a_label_for_a_second_run() {
    let mut edges = vec![
        edge(0, "B", Some("no"), "C"),
        edge(1, "A", Some("yes"), "C"),
        edge(2, "C", None, "D"),
        edge(3, "C", None, "E"),
    ];
    let map = labels(&[("D", "Success"), ("E", "Node E")]);
    migrate_labels(&mut edges, &map);
    assert_eq!(
        label_of(&edges),
        vec![Some("no".to_string()), None, Some("yes".to_string()), None]
    );
    migrate_labels(&mut edges, &map);
    assert_eq!(
        label_of(&edges),
        vec![None, None, Some("yes".to_string()), Some("no".to_string())]
    );
}
