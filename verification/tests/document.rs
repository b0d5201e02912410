use fix_docs::cleanup::{
    fix_internal_links, fix_literal_backslash_n, fix_section_links, get_section_anchors,
    remove_ask_devin_lines, remove_link_copied, strip_github_blob_sha, strip_preamble,
};
use fix_docs::layout::{fix_long_lines, fix_table_content, fix_table_rows, wrap_words};
use fix_docs::pipeline::process_text;

fn strings(lines: &[&str]) -> Vec<String> {
    lines.iter().map(|l| l.to_string()).collect()
}

#[test]
fn preamble_goes_up_to_the_first_heading() {
    assert_eq!(strip_preamble("menu\nmore\n  # Title\nbody\n"), "  # Title\nbody\n");
    assert_eq!(strip_preamble("menu\n# Title"), "# Title");
    assert_eq!(strip_preamble("# Title\r\nbody\r\n"), "# Title\r\nbody\r\n");
    assert_eq!(strip_preamble("no heading\nat all\n"), "no heading\nat all\n");
    assert_eq!(strip_preamble(""), "");
}

#[test]
fn prompt_lines_are_dropped() {
    assert_eq!(
        remove_ask_devin_lines("a\n  Ask Devin about this page\nb\n"),
        "a\nb\n"
    );
    assert_eq!(remove_ask_devin_lines("a\nAsk Devin about x"), "a");
    assert_eq!(remove_ask_devin_lines("We Ask Devin about x\n"), "We Ask Devin about x\n");
}

#[test]
fn literal_backslash_n_becomes_a_line_feed() {
    assert_eq!(fix_literal_backslash_n("a\\nb\\n\\nc"), "a\nb\n\nc");
    assert_eq!(fix_literal_backslash_n("plain\\"), "plain\\");
}

#[test]
fn copied_notice_is_dropped_with_its_space() {
    assert_eq!(remove_link_copied("Title  Link copied!\nnext"), "Title\nnext");
    assert_eq!(remove_link_copied("nothing here"), "nothing here");
}

#[test]
fn root_paths_point_to_the_host() {
    assert_eq!(
        fix_internal_links("see [code](/owner/repo/blob/abc/file.rs) here"),
        "see [code](https://github.com/owner/repo/blob/abc/file.rs) here"
    );
    assert_eq!(
        fix_internal_links("[ref]: /owner/repo\nrest"),
        "[ref]: https://github.com/owner/repo\nrest"
    );
    assert_eq!(fix_internal_links("[a](/single)"), "[a](/single)");
}

#[test]
fn section_names_point_to_anchors() {
    assert_eq!(
        fix_section_links("https://github.com/o/r/blob/0123abc/WSL.exe Section"),
        "https://github.com/o/r/blob/0123abc/README.md#wslexe-issues"
    );
    assert_eq!(
        fix_section_links("x https://github.com/o/r/blob/0123abc/Performance Section y"),
        "x https://github.com/o/r/blob/0123abc/README.md#performance-optimization y"
    );
    assert_eq!(
        fix_section_links("https://github.com/o/r/blob/0123abc/WSLxexe Section"),
        "https://github.com/o/r/blob/0123abc/WSLxexe Section"
    );
}

#[test]
fn section_table_has_eight_entries() {
    let anchors = get_section_anchors();
    assert_eq!(anchors.len(), 8);
    assert_eq!(anchors[0], ("Networking Section", "networking-configuration"));
    assert_eq!(anchors[7], ("Distribution Section", "distribution-selection"));
}

#[test]
fn commit_leaves_file_links() {
    assert_eq!(
        strip_github_blob_sha("https://github.com/o/r/blob/0123abcdef/src/main.rs"),
        "https://github.com/o/r/src/main.rs"
    );
    assert_eq!(
        strip_github_blob_sha("https://github.com/o/r/blob/xyz/src"),
        "https://github.com/o/r/blob/xyz/src"
    );
}

#[test]
fn words_wrap_at_the_width() {
    let words = strings(&["aaaa", "bbbb", "cc", "dddddddddddd", "e"]);
    assert_eq!(wrap_words(&words, 10), strings(&["aaaa bbbb", "cc", "dddddddddddd", "e"]));
    assert_eq!(wrap_words(&strings(&[]), 10), strings(&[]));
    assert_eq!(wrap_words(&strings(&["ab", "cd"]), 5), strings(&["ab cd"]));
    assert_eq!(wrap_words(&strings(&["ab", "cde"]), 5), strings(&["ab", "cde"]));
}

#[test]
fn long_cells_are_broken() {
    let rows = strings(&[
        "| name | a very long description that goes well beyond thirty bytes |",
        "|---|---|",
        "not a row",
    ]);
    assert_eq!(
        fix_table_rows(&rows),
        "| name | a very long description that<br>goes well beyond thirty bytes |\n| --- | --- |\nnot a row\n"
    );
}

#[test]
fn tables_are_written_with_an_empty_line_behind() {
    assert_eq!(
        fix_table_content("intro\n| a | b |\n|---|---|\nafter\n"),
        "intro\n| a | b |\n| --- | --- |\n\nafter\n"
    );
    assert_eq!(fix_table_content("| a |"), "| a |\n");
    assert_eq!(fix_table_content("x"), "x\n");
}

#[test]
fn long_prose_is_broken_between_words() {
    let word = "abcdefghi";
    let line = vec![word; 10].join(" ");
    assert_eq!(line.len(), 99);
    let expected = format!("{}\n{}\n", vec![word; 8].join(" "), vec![word; 2].join(" "));
    assert_eq!(fix_long_lines(&line), expected);
    assert_eq!(fix_long_lines("short\nlines"), "short\nlines\n");
}

#[test]
fn long_code_is_cut_in_chunks() {
    let code = "x".repeat(170);
    let text = format!("```\n{}\n{}\n```\n", code, "y".repeat(100));
    let expected = format!(
        "```\n{}\n{}\n{}\n{}\n```\n",
        "x".repeat(80),
        "x".repeat(80),
        "x".repeat(10),
        "y".repeat(100)
    );
    assert_eq!(fix_long_lines(&text), expected);
}

#[test]
fn a_chunk_that_cuts_a_character_shows_replacements() {
    let code = format!("{}é{}", "x".repeat(79), "z".repeat(90));
    let text = format!("```\n{}\n```", code);
    let expected = format!(
        "```\n{}\u{fffd}\n\u{fffd}{}\n{}\n```\n",
        "x".repeat(79),
        "z".repeat(79),
        "z".repeat(11)
    );
    assert_eq!(fix_long_lines(&text), expected);
}

#[test]
fn a_document_goes_through_every_step() {
    let text = "nav\n# Guide Link copied!\nAsk Devin about Guide\nSee [src](/o/r/blob/0123abc/a.rs).\n```mermaid\ngraph TD\nA-->|\"yes\"|B\n```\n";
    let expected = "# Guide\nSee [src](https://github.com/o/r/a.rs).\n```mermaid\ngraph TD\nA --> |\"yes\"| B\n```\n";
    assert_eq!(process_text(text), expected);
}
