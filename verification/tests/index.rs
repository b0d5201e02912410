use fix_docs::index::{
    build_ordinal_mapping, number_pages, numbered_name, parse_readme_index,
    rewrite_markdown_links, PathSplit,
};
use fix_docs::pdf::{
    code_block, image_name, image_reference, pdf_parts, section_prefix, skip_title, title_page,
    PdfPart,
};
use fix_docs::textmap::TextMap;

fn sorted(mut pairs: Vec<(String, String)>) -> Vec<(String, String)> {
    pairs.sort();
    pairs
}

fn pair(a: &str, b: &str) -> (String, String) {
    (a.to_string(), b.to_string())
}

#[test]
fn index_lists_local_markdown_pages() {
    let text = "# Index\n- [Intro](intro.md)\n- [Site](https://example.com/a.md)\n- [Pic](pic.png)\n  - [Deep](docs/Deep.MD)\nnot - [x](y.md)\n- [Broken](docs/\nbroken.md)\n";
    assert_eq!(
        parse_readme_index(text),
        vec!["intro.md", "docs/Deep.MD", "docs/broken.md"]
    );
    assert_eq!(parse_readme_index(""), Vec::<String>::new());
}

#[test]
fn pages_are_numbered_by_their_place() {
    let text = "- [A](intro.md)\n- [B](docs/setup.md)\n- [C](03-done.md)\n- [D](last.md)\n";
    let mapping = build_ordinal_mapping(text);
    assert_eq!(
        sorted(mapping.entries()),
        vec![
            pair("docs/setup.md", "docs/02-setup.md"),
            pair("intro.md", "01-intro.md"),
            pair("last.md", "04-last.md"),
        ]
    );
}

#[test]
fn a_page_listed_twice_gets_its_last_number() {
    let text = "- [A](a.md)\n- [B](b.md)\n- [A](a.md)\n";
    let mapping = build_ordinal_mapping(text);
    assert_eq!(
        sorted(mapping.entries()),
        vec![pair("a.md", "03-a.md"), pair("b.md", "02-b.md")]
    );
    assert_eq!(mapping.get("a.md"), Some("03-a.md".to_string()));
    assert_eq!(mapping.get("c.md"), None);
}

#[test]
fn numbered_names_take_two_digits() {
    let split = |parent: Option<&str>, name: &str| PathSplit {
        parent: parent.map(|p| p.to_string()),
        file_name: name.to_string(),
    };
    assert_eq!(numbered_name(7, &split(None, "a.md")), Some("07-a.md".to_string()));
    assert_eq!(numbered_name(12, &split(Some(""), "a.md")), Some("12-a.md".to_string()));
    assert_eq!(
        numbered_name(120, &split(Some("x/y"), "a.md")),
        Some("x/y/120-a.md".to_string())
    );
    assert_eq!(numbered_name(0, &split(None, "")), Some("00-".to_string()));
    assert_eq!(numbered_name(3, &split(Some("d"), "10-a.md")), None);
    let items = vec!["a.md".to_string(), "d/b.md".to_string()];
    let splits = vec![split(Some(""), "a.md"), split(Some("d"), "b.md")];
    assert_eq!(
        sorted(number_pages(&items, &splits).entries()),
        vec![pair("a.md", "01-a.md"), pair("d/b.md", "d/02-b.md")]
    );
}

#[test]
fn links_follow_the_new_names() {
    let mut mapping = TextMap::new();
    mapping.insert("intro.md".to_string(), "01-intro.md".to_string());
    mapping.insert("docs/setup.md".to_string(), "docs/02-setup.md".to_string());
    let text = "[a](intro.md) [b](../../docs/setup.md#top) [c](./intro.md) [d](http://x/intro.md) [e](other.md) [f](.././intro.md#x#y)";
    assert_eq!(
        rewrite_markdown_links(text, &mapping),
        "[a](01-intro.md) [b](../../docs/02-setup.md#top) [c](./01-intro.md) [d](http://x/intro.md) [e](other.md) [f](.././01-intro.md#x#y)"
    );
}

#[test]
fn entries_hold_each_key_once() {
    let mut mapping = TextMap::new();
    assert!(mapping.entries().is_empty());
    mapping.insert("k".to_string(), "1".to_string());
    mapping.insert("j".to_string(), "2".to_string());
    mapping.insert("k".to_string(), "3".to_string());
    assert_eq!(sorted(mapping.entries()), vec![pair("j", "2"), pair("k", "3")]);
}

#[test]
fn diagrams_are_set_apart_for_print() {
    let text = "intro\n```mermaid\ngraph TD\nA-->B\n```\nafter\n```mermaid\nsequenceDiagram";
    let parts = pdf_parts(text);
    assert_eq!(parts.len(), 4);
    assert!(matches!(&parts[0], PdfPart::Text(t) if t == "intro\n"));
    assert!(matches!(&parts[1], PdfPart::Diagram(d) if d == "graph TD\nA --> B"));
    assert!(matches!(&parts[2], PdfPart::Text(t) if t == "after\n"));
    assert!(matches!(&parts[3], PdfPart::Diagram(d) if d == "sequenceDiagram"));
}

#[test]
fn texts_around_a_diagram() {
    assert_eq!(code_block("graph TD"), "\n```\ngraph TD\n```\n\n");
    assert_eq!(image_reference(3, "/tmp/x.png"), "\n![Diagram 3](/tmp/x.png)\n\n");
    assert_eq!(image_name("readme", 12), "readme-diagram-12.png");
    assert_eq!(section_prefix(105, "intro"), "sec105-intro");
    assert_eq!(section_prefix(0, ""), "sec0-");
}

#[test]
fn title_line_is_skipped() {
    assert_eq!(skip_title("# Title\nbody\nmore\n"), "body\nmore");
    assert_eq!(skip_title("\n  # Title\nbody"), "  # Title\nbody");
    assert_eq!(skip_title("# Only"), "");
    assert_eq!(skip_title("no title\nhere\n"), "no title\nhere\n");
}

#[test]
fn title_page_escapes_underscores() {
    assert_eq!(
        title_page("my_proj-x"),
        "\\begin{titlepage}\n\\centering\n\\vspace*{3cm}\n{\\fontsize{32}{40}\\selectfont\\bfseries my\\_proj-x \\par}\n\\vfill\n\\end{titlepage}\n"
    );
}
