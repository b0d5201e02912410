use fix_docs::block::{classify, sanitize_block, sanitize_mermaid, sanitize_mermaid_block, DiagramKind};
use fix_docs::label::{
    contains_list_marker, fix_malformed_nodes, is_clean, repair_line, replace_links,
    sanitize_label, sanitize_node_labels, BROKEN_NODE_PATTERN, LINK_PATTERN, URL_PATTERN,
};
use fix_docs::pattern::is_match;
use fix_docs::sequence::{
    alias_declaration, fix_sequence_diagram_participants, has_alias_collision, make_alias,
    name_needs_alias, read_names, read_participant,
};

fn block(lines: &[&str]) -> Vec<String> {
    lines.iter().map(|l| l.to_string()).collect()
}

#[test]
fn yes_moves_to_the_success_edge() {
    let input = block(&[
        "flowchart TD",
        "    A-->B",
        "    B-->|\"yes\"|C",
        "    C-->D",
        "    C-->E",
        "    D[\"Request Failed\"]",
        "    E[\"Success\"]",
    ]);
    let expected = block(&[
        "flowchart TD",
        "    A --> B",
        "    B --> C",
        "    C --> D",
        "    C --> |\"yes\"| E",
        "    D[\"Request Failed\"]",
        "    E[\"Success\"]",
    ]);
    assert_eq!(sanitize_mermaid_block(&input), expected);
}

#[test]
fn neutral_labels_keep_the_branch_label_in_place() {
    let input = block(&[
        "flowchart TD",
        "    A-->B",
        "    B-->|\"yes\"|C",
        "    C-->D",
        "    C-->E",
        "    D[\"Node D\"]",
        "    E[\"Node E\"]",
    ]);
    let expected = block(&[
        "flowchart TD",
        "    A --> B",
        "    B --> |\"yes\"| C",
        "    C --> D",
        "    C --> E",
        "    D[\"Node D\"]",
        "    E[\"Node E\"]",
    ]);
    assert_eq!(sanitize_mermaid_block(&input), expected);
}

#[test]
fn list_label_is_replaced_whole() {
    assert_eq!(sanitize_label("1. do X<br>2. do Y"), "Unsupported markdown: list");
    assert!(contains_list_marker("1. do X<br>2. do Y"));
    assert!(contains_list_marker("intro<br/>- item"));
    assert!(!contains_list_marker("1.5 seconds"));
}

#[test]
fn links_and_addresses_are_replaced() {
    assert_eq!(
        sanitize_label("see [docs](https://example.com/a) now"),
        "see Unsupported markdown: link now"
    );
    assert_eq!(
        sanitize_label("visit http://example.com/x today"),
        "visit Unsupported markdown: link today"
    );
    assert_eq!(sanitize_label("plain text"), "plain text");
}

#[test]
fn labels_in_lines_are_sanitized() {
    let input = block(&["A[\"go to [x](y)\"] --> B[\"- item\"]", "no label here"]);
    let expected = block(&[
        "A[\"go to Unsupported markdown: link\"] --> B[\"Unsupported markdown: list\"]",
        "no label here",
    ]);
    assert_eq!(sanitize_node_labels(&input), expected);
}

#[test]
fn broken_node_shows_its_identifier() {
    let input = block(&["    INPUTENC[broken-content]\"]", "    X --> Y"]);
    let expected = block(&["    INPUTENC[\"INPUTENC\"]", "    X --> Y"]);
    assert_eq!(fix_malformed_nodes(&input), expected);
}

#[test]
fn participant_with_space_gets_an_alias() {
    let input = block(&[
        "sequenceDiagram",
        "participant User Service",
        "participant DB",
        "User Service->>DB: query",
        "DB-->>User Service: rows",
    ]);
    let expected = block(&[
        "sequenceDiagram",
        "participant User_Service as User Service",
        "participant DB",
        "User_Service->>DB: query",
        "DB-->>User_Service: rows",
    ]);
    assert_eq!(fix_sequence_diagram_participants(&input), expected);
    assert_eq!(sanitize_mermaid_block(&input), expected);
}

#[test]
fn kinds_are_told_by_the_first_line() {
    assert_eq!(classify(&block(&["", "  graph LR", "A-->B"])), DiagramKind::Flowchart);
    assert_eq!(classify(&block(&["flowchart TD"])), DiagramKind::Flowchart);
    assert_eq!(classify(&block(&["sequenceDiagram"])), DiagramKind::Sequence);
    assert_eq!(classify(&block(&["pie", "graph LR"])), DiagramKind::Unknown);
    assert_eq!(classify(&block(&[])), DiagramKind::Unknown);
}

#[test]
fn hint_overrides_first_line() {
    let input = block(&["A-->|\"no\"|B", "B-->C", "B-->D", "C[\"skip\"]", "D[\"ready\"]"]);
    let unknown = sanitize_block(&input, None);
    assert_eq!(unknown, input);
    let flow = sanitize_block(&input, Some(DiagramKind::Flowchart));
    assert_eq!(
        flow,
        block(&["A --> B", "B --> |\"no\"| C", "B --> D", "C[\"skip\"]", "D[\"ready\"]"])
    );
}

#[test]
fn document_blocks_are_sanitized_in_place() {
    let text = "# Title\n\n```mermaid\nflowchart TD\nA-->B\n```\ntext\n";
    assert_eq!(
        sanitize_mermaid(text),
        "# Title\n\n```mermaid\nflowchart TD\nA --> B\n```\ntext\n"
    );
}

#[test]
fn open_block_ends_with_the_document() {
    let text = "intro\n```mermaid\ngraph LR\nA-->B";
    assert_eq!(sanitize_mermaid(text), "intro\n```mermaid\ngraph LR\nA --> B");
}

#[test]
fn other_fences_stay() {
    let text = "```rust\nA-->B\n```\n";
    assert_eq!(sanitize_mermaid(text), text);
}

#[test]
fn a_second_run_changes_nothing_more() {
    let input = block(&[
        "flowchart TD",
        "    A-->B",
        "    B-->|\"yes\"|C",
        "    C-->D",
        "    C-->E",
        "    D[\"Request [Failed](http://x/y)\"]",
        "    E[\"Success\"]",
        "    F[broken-content]\"]",
        "    G[\"1. one<br>2. two\"]",
    ]);
    let once = sanitize_mermaid_block(&input);
    assert_eq!(
        once,
        block(&[
            "flowchart TD",
            "    A --> B",
            "    B --> C",
            "    C --> D",
            "    C --> |\"yes\"| E",
            "    D[\"Request Unsupported markdown: link\"]",
            "    E[\"Success\"]",
            "    F[\"F\"]",
            "    G[\"Unsupported markdown: list\"]",
        ])
    );
    assert_eq!(sanitize_mermaid_block(&once), once);
    let text = "```mermaid\nsequenceDiagram\nparticipant A\nA->>B: hi\n```\n";
    assert_eq!(sanitize_mermaid(&sanitize_mermaid(text)), sanitize_mermaid(text));
}

#[test]
fn a_declaration_with_an_alias_stays() {
    let input = block(&["participant User Service", "User Service->>API: request"]);
    let once = fix_sequence_diagram_participants(&input);
    assert_eq!(
        once,
        block(&["participant User_Service as User Service", "User_Service->>API: request"])
    );
    assert_eq!(fix_sequence_diagram_participants(&once), once);
    let shown = block(&["  participant A as Alice in Chains", "A->>B: x"]);
    assert_eq!(fix_sequence_diagram_participants(&shown), shown);
}

#[test]
fn a_name_with_spaces_keeps_what_it_is_shown_as() {
    let input = block(&["  participant Auth Server  as  Login", "Auth Server->>DB: x"]);
    let once = fix_sequence_diagram_participants(&input);
    assert_eq!(once, block(&["participant Auth_Server as Login", "Auth_Server->>DB: x"]));
    assert_eq!(fix_sequence_diagram_participants(&once), once);
}

#[test]
fn hyphens_and_spaces_both_become_underscores() {
    let input = block(&[
        "Auth-Server->>Data Base: ask",
        "  participant   Auth-Server  ",
        "participant Data Base",
        "participant Auth-Server",
        "Note over Auth-Server,Data Base: x",
    ]);
    let expected = block(&[
        "Auth_Server->>Data_Base: ask",
        "participant Auth_Server as Auth-Server",
        "participant Data_Base as Data Base",
        "participant Auth_Server as Auth-Server",
        "Note over Auth_Server,Data_Base: x",
    ]);
    assert_eq!(fix_sequence_diagram_participants(&input), expected);
    assert_eq!(fix_sequence_diagram_participants(&expected), expected);
}

#[test]
fn names_give_way_in_the_order_of_their_declaration() {
    let input = block(&["participant A B", "participant A B C", "A B C->>A B: x"]);
    let expected = block(&[
        "participant A_B as A B",
        "participant A_B_C as A B C",
        "A_B C->>A_B: x",
    ]);
    assert_eq!(fix_sequence_diagram_participants(&input), expected);
}

#[test]
fn no_link_and_no_address_is_left_in_plain_cases() {
    let cases = [
        "[a](b) and [c](d)",
        "http://a.b/c https://d.e",
        "see [docs](https://example.com) or https://example.org/x?y=1",
        "[a [b](c) d](e)",
    ];
    for label in cases {
        let out = sanitize_label(label);
        assert!(is_match(LINK_PATTERN, label) || is_match(URL_PATTERN, label));
        assert!(!is_match(LINK_PATTERN, &out), "{}", out);
        assert!(!is_match(URL_PATTERN, &out), "{}", out);
        assert_eq!(sanitize_label(&out), out);
    }
    assert_eq!(sanitize_label("[[nested](x)](y)"), "Unsupported markdown: link](y)");
}

#[test]
fn a_link_that_an_address_leaves_is_replaced_too() {
    assert_eq!(replace_links("[pre http://foo]bar post](B)"), "[pre Unsupported markdown: link post](B)");
    assert!(!is_clean("[pre Unsupported markdown: link post](B)"));
    let out = sanitize_label("[pre http://foo]bar post](B)");
    assert_eq!(out, "Unsupported markdown: link");
    assert!(is_clean(&out));
    assert_eq!(sanitize_label(&out), out);
    let two = sanitize_label("[a](b) [pre http://foo]bar post](B)");
    assert_eq!(two, "Unsupported markdown: link Unsupported markdown: link");
    assert!(is_clean(&two));
    let lines = sanitize_node_labels(&block(&["X[\"[pre http://foo]bar post](B)\"]"]));
    assert_eq!(lines, block(&["X[\"Unsupported markdown: link\"]"]));
    assert_eq!(sanitize_node_labels(&lines), lines);
}

#[test]
fn a_label_without_link_and_address_is_clean() {
    assert!(is_clean("plain text"));
    assert!(is_clean(""));
    assert!(is_clean("Unsupported markdown: link"));
    assert!(is_clean("Unsupported markdown: list"));
    assert!(!is_clean("[a](b)"));
    assert!(!is_clean("https://x"));
    assert_eq!(replace_links("plain"), "plain");
}

#[test]
fn list_markers_are_told_per_segment() {
    assert!(contains_list_marker("- item"));
    assert!(contains_list_marker("  * item"));
    assert!(contains_list_marker("text<br >+ item"));
    assert!(contains_list_marker("text<br/>  12. item"));
    assert!(!contains_list_marker("text - item"));
    assert!(!contains_list_marker("-item"));
    assert!(!contains_list_marker("1.item"));
    assert!(!contains_list_marker("text<BR>- item"));
    assert_eq!(sanitize_label("- [a](b)"), "Unsupported markdown: list");
}

#[test]
fn colliding_aliases_are_told() {
    assert!(has_alias_collision(&block(&["participant A B", "participant A-B"])));
    assert!(!has_alias_collision(&block(&["participant A B", "participant A B", "participant C-D"])));
    assert!(!has_alias_collision(&block(&["participant A_B", "participant A B"])));
    assert!(!has_alias_collision(&block(&[])));
}

#[test]
fn names_and_aliases() {
    let plain = read_participant("  participant  User Service  ").unwrap();
    assert_eq!((plain.name.as_str(), plain.shown.as_str()), ("User Service", "User Service"));
    let shown = read_participant("participant A as Alice").unwrap();
    assert_eq!((shown.name.as_str(), shown.shown.as_str()), ("A", "Alice"));
    assert!(read_participant("actor Bob").is_none());
    assert!(read_participant("participant").is_none());
    let twice = read_names("A  as  B as C");
    assert_eq!((twice.name.as_str(), twice.shown.as_str()), ("A", "B as C"));
    let none = read_names("Save as");
    assert_eq!((none.name.as_str(), none.shown.as_str()), ("Save as", "Save as"));
    assert_eq!(
        alias_declaration("  participant X Y", &read_names("X Y")),
        "participant X_Y as X Y"
    );
    assert_eq!(
        alias_declaration("  participant X_Y as X Y", &read_names("X_Y as X Y")),
        "  participant X_Y as X Y"
    );
    assert!(name_needs_alias("a b"));
    assert!(name_needs_alias("a-b"));
    assert!(!name_needs_alias("a_b"));
    assert!(!name_needs_alias(""));
    assert_eq!(make_alias("a b-c  d"), "a_b_c__d");
    assert_eq!(make_alias("plain"), "plain");
}

#[test]
fn a_fence_inside_a_block_closes_it() {
    let text = "```mermaid\ngraph TD\nA-->B\n```mermaid\nC-->D\n```\n";
    assert_eq!(
        sanitize_mermaid(text),
        "```mermaid\ngraph TD\nA --> B\n```mermaid\nC-->D\n```\n"
    );
}

#[test]
fn a_block_keeps_its_number_of_lines() {
    let input = block(&["graph TD", "", "A-->B", "x", "B[\"[a](b)\"]"]);
    assert_eq!(sanitize_mermaid_block(&input).len(), input.len());
    let seq = block(&["sequenceDiagram", "participant A B", "A B->>C: x"]);
    assert_eq!(sanitize_mermaid_block(&seq).len(), seq.len());
}

#[test]
fn line_ends_become_line_feeds() {
    assert_eq!(sanitize_mermaid("a\r\nb\r\n"), "a\nb\n");
    assert_eq!(sanitize_mermaid("a\n\nb"), "a\n\nb");
    assert_eq!(sanitize_mermaid(""), "");
    assert_eq!(sanitize_mermaid("\n"), "\n");
}

#[test]
fn a_repaired_line_holds_no_broken_node() {
    let cases = [
        "A[broken-content]\"] --> B[broken-content]\"]",
        "  x_1[broken-content]\"]",
        "[broken-content]\"]",
        "plain",
    ];
    for line in cases {
        let out = repair_line(line);
        assert!(!is_match(BROKEN_NODE_PATTERN, &out), "{}", out);
        assert_eq!(repair_line(&out), out);
    }
    assert_eq!(
        repair_line("A[broken-content]\"] --> B[broken-content]\"]"),
        "A[\"A\"] --> B[\"B\"]"
    );
    assert_eq!(repair_line("[broken-content]\"]"), "[broken-content]\"]");
    let lines = block(&["  N[broken-content]\"]", "x"]);
    let once = fix_malformed_nodes(&lines);
    assert_eq!(fix_malformed_nodes(&once), once);
}

#[test]
fn a_second_run_changes_no_block() {
    let blocks = [
        block(&["sequenceDiagram", "  participant Web App", "participant DB-1 as Store", "Web App->>DB-1: q"]),
        block(&["flowchart LR", "A-->|\"yes\"|B", "B-->C", "B-->D", "C[\"ok [x](http://y)\"]", "D[\"- no\"]"]),
        block(&["pie", "X[broken-content]\"]", "Y[\"see https://a.b\"]"]),
    ];
    for lines in blocks {
        let once = sanitize_mermaid_block(&lines);
        assert_eq!(sanitize_mermaid_block(&once), once);
    }
}
