use fix_docs::block::{extract_blocks, DiagramBlock, DiagramKind, Piece};
use fix_docs::pattern::{captures, fixed, is_match, replace_matches, rewrite, Part};
use fix_docs::text::{
    chars_of, join_texts, rejoin, replace_text, same_text, split_lines, split_text, split_words,
    text_before, text_contains, text_ends_with, text_starts_with, trim_start_text, trim_text,
};

fn strings(lines: &[&str]) -> Vec<String> {
    lines.iter().map(|l| l.to_string()).collect()
}

#[test]
fn lines_end_at_line_feeds() {
    assert_eq!(split_lines("a\nb\n"), strings(&["a", "b"]));
    assert_eq!(split_lines("a\nb"), strings(&["a", "b"]));
    assert_eq!(split_lines("a\r\nb\r"), strings(&["a", "b\r"]));
    assert_eq!(split_lines("\n\n"), strings(&["", ""]));
    assert_eq!(split_lines("a\r\r\n"), strings(&["a\r"]));
    assert_eq!(split_lines(""), Vec::<String>::new());
}

#[test]
fn texts_join_with_a_separator() {
    assert_eq!(join_texts(&strings(&["a", "b", "c"]), ", "), "a, b, c");
    assert_eq!(join_texts(&strings(&["a"]), ", "), "a");
    assert_eq!(join_texts(&strings(&["", ""]), "-"), "-");
    assert_eq!(join_texts(&strings(&[]), ", "), "");
    assert_eq!(rejoin(&strings(&["a", "b"]), "x\n"), "a\nb\n");
    assert_eq!(rejoin(&strings(&["a", "b"]), "x"), "a\nb");
}

#[test]
fn trimming_takes_every_kind_of_white_space() {
    assert_eq!(trim_text("  a b \t\n"), "a b");
    assert_eq!(trim_text("\u{a0}\u{3000}x\u{2003}"), "x");
    assert_eq!(trim_text(" \t "), "");
    assert_eq!(trim_text(""), "");
    assert_eq!(trim_start_text("  a b  "), "a b  ");
    assert_eq!(trim_start_text("   "), "");
}

#[test]
fn occurrences_are_found() {
    assert!(text_starts_with("flowchart TD", "flowchart"));
    assert!(!text_starts_with("flow", "flowchart"));
    assert!(text_starts_with("abc", ""));
    assert!(text_ends_with("file.md", ".md"));
    assert!(!text_ends_with("md", ".md"));
    assert!(text_contains("```mermaid", "mermaid"));
    assert!(!text_contains("```mermai", "mermaid"));
    assert!(text_contains("", ""));
    assert!(same_text("é", "é"));
    assert!(!same_text("e", "é"));
    assert_eq!(text_before("A[\"x\"] B[\"y\"]", "[\""), "A");
    assert_eq!(text_before("none", "[\""), "none");
    assert_eq!(chars_of("añ"), vec!['a', 'ñ']);
}

#[test]
fn replacement_goes_from_left_to_right() {
    assert_eq!(replace_text("aaa", "aa", "b"), "ba");
    assert_eq!(replace_text("a-b-c", "-", "--"), "a--b--c");
    assert_eq!(replace_text("abc", "x", "y"), "abc");
    assert_eq!(replace_text("", "x", "y"), "");
    assert_eq!(replace_text("xx", "x", ""), "");
}

#[test]
fn pieces_and_words() {
    assert_eq!(split_text("|a|b|", '|'), strings(&["", "a", "b", ""]));
    assert_eq!(split_text("", '|'), strings(&[""]));
    assert_eq!(split_text("abc", '|'), strings(&["abc"]));
    assert_eq!(split_words("  one two\tthree\n"), strings(&["one", "two", "three"]));
    assert_eq!(split_words(" \t"), Vec::<String>::new());
    assert_eq!(split_words("one"), strings(&["one"]));
}

#[test]
fn patterns_match_and_capture() {
    assert!(is_match(r"^\d{2}-", "01-intro.md"));
    assert!(!is_match(r"^\d{2}-", "1-intro.md"));
    assert!(!is_match(r"(unclosed", "(unclosed"));
    let found = captures(r"(\w+)@(\w+)?", "to a@ and b@c").unwrap();
    assert_eq!(found.gap, "to ");
    assert_eq!(found.groups, vec![Some("a@".to_string()), Some("a".to_string()), None]);
    assert_eq!(found.group_text(1), "a");
    assert_eq!(found.group_text(2), "");
    assert_eq!(found.group_text(9), "");
    assert!(found.has(1));
    assert!(!found.has(2));
    assert!(!found.has(9));
    assert!(captures(r"\d", "none").is_none());
}

#[test]
fn matches_are_replaced() {
    assert_eq!(replace_matches(r"\d+", "a1b22c", "#"), "a#b#c");
    assert_eq!(replace_matches(r"\d+", "abc", "#"), "abc");
    assert_eq!(replace_matches(r"x*", "ab", "-"), "-a-b-");
    assert_eq!(replace_matches(r"\d+", "1", "$0$0"), "$0$0");
    let template = vec![Part::Group(2), fixed("="), Part::Group(1), Part::Group(7)];
    assert_eq!(rewrite(r"(\w)-(\w)", "a-b, c-d", &template), "b=a, d=c");
    assert_eq!(rewrite(r"(\w)-(\w)", "nothing", &template), "nothing");
}

fn lines_of(pieces: &[Piece]) -> Vec<String> {
    let mut all = Vec::new();
    for piece in pieces {
        match piece {
            Piece::Prose(l) | Piece::Open(l) | Piece::Close(l) => all.push(l.clone()),
            Piece::Block(b) => all.extend(b.lines.iter().cloned()),
        }
    }
    all
}

#[test]
fn pieces_hold_every_line() {
    let doc = strings(&[
        "intro",
        "```mermaid",
        "graph TD",
        "A-->B",
        "```",
        "```rust",
        "code",
        "```",
        "``` mermaid again",
        "sequenceDiagram",
        "```mermaid",
        "tail",
        "```mermaid",
    ]);
    let pieces = extract_blocks(&doc);
    assert_eq!(lines_of(&pieces), doc);
    let kinds: Vec<&str> = pieces
        .iter()
        .map(|p| match p {
            Piece::Prose(_) => "prose",
            Piece::Open(_) => "open",
            Piece::Block(_) => "block",
            Piece::Close(_) => "close",
        })
        .collect();
    assert_eq!(
        kinds,
        vec![
            "prose", "open", "block", "close", "prose", "prose", "prose", "open", "block",
            "close", "prose", "open", "block"
        ]
    );
    match (&pieces[2], &pieces[8], &pieces[12]) {
        (Piece::Block(a), Piece::Block(b), Piece::Block(c)) => {
            assert_eq!(a.kind, DiagramKind::Flowchart);
            assert_eq!(a.lines, strings(&["graph TD", "A-->B"]));
            assert_eq!(b.kind, DiagramKind::Sequence);
            assert_eq!(c.kind, DiagramKind::Unknown);
            assert!(c.lines.is_empty());
        }
        _ => panic!("blocks expected"),
    }
}

#[test]
fn a_block_is_sanitized_as_its_kind() {
    let block = DiagramBlock::new(strings(&["graph LR", "A-->|\"yes\"|B"]));
    assert_eq!(block.kind, DiagramKind::Flowchart);
    assert_eq!(block.sanitize(), strings(&["graph LR", "A --> |\"yes\"| B"]));
    let other = DiagramBlock { lines: strings(&["graph LR", "A-->B"]), kind: DiagramKind::Unknown };
    assert_eq!(other.sanitize(), strings(&["graph LR", "A-->B"]));
}

#[test]
fn white_space_is_what_the_list_says() {
    let listed = |n: u32| {
        (0x09..=0x0d).contains(&n)
            || n == 0x20
            || n == 0x85
            || n == 0xa0
            || n == 0x1680
            || (0x2000..=0x200a).contains(&n)
            || n == 0x2028
            || n == 0x2029
            || n == 0x202f
            || n == 0x205f
            || n == 0x3000
    };
    let mut spaces = 0;
    for n in 0..=0x10ffff_u32 {
        if let Some(c) = char::from_u32(n) {
            let trimmed = trim_start_text(c.encode_utf8(&mut [0; 4]));
            assert_eq!(trimmed.is_empty(), listed(n), "{:x}", n);
            if trimmed.is_empty() {
                spaces += 1;
            }
        }
    }
    assert_eq!(spaces, 25);
}
