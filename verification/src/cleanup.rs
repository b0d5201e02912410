//! Clean-ups of an exported document: what stands before the first
//! heading, leftovers of the export, and links that point into it.
use crate::pattern::{
    escape, escaped, fixed, replace_all, replace_matches, rewrite, rewritten, Part, PartView,
};
use crate::text::{
    lemma_texts_push, lines, rejoin, rejoined, replace, replace_text, split_lines, starts_with,
    text_starts_with, trim, trim_start, trim_start_text, trim_text,
};
use vstd::prelude::*;

verus! {

/// The start of a line that the export added below a page.
pub const PROMPT_START: &'static str = "Ask Devin about";

/// A notice that the export left in the text, with the white space before
/// it.
pub const COPIED_PATTERN: &'static str = r"\s*Link copied!";

/// An inline link whose target is a path of at least two segments from the
/// root.
pub const INLINE_LINK_PATTERN: &'static str = r"\]\((/[^)/\s]+/[^)/\s]+(?:/[^\s)]*)?)\)";

/// A reference definition whose target is such a path.
pub const REFERENCE_LINK_PATTERN: &'static str =
    r"(?m)(^\s*\[[^\]]+\]:\s*)(/[^)/\s]+/[^)/\s]+(?:/[^\s)]*)?)";

/// A link to a file of a repository at a given commit, up to the file.
pub const BLOB_PATTERN: &'static str =
    r"https://github\.com/([^/]+)/([^/]+)/blob/([0-9a-f]{7,40})/";

/// The host that paths from the root belong to.
pub const HOST: &'static str = "https://github.com";

/// Whether a line is a heading.
pub open spec fn is_heading(line: Seq<char>) -> bool {
    starts_with(trim_start(line), "#"@)
}

/// The index of the first heading among `lines` from `i` on.
pub open spec fn first_heading(lines: Seq<Seq<char>>, i: int) -> Option<int>
    decreases lines.len() - i,
{
    if i < 0 || i >= lines.len() {
        None
    } else if is_heading(lines[i]) {
        Some(i)
    } else {
        first_heading(lines, i + 1)
    }
}

/// The text from its first heading on. A text without a heading, or one
/// that starts with a heading, stays as it is.
pub open spec fn without_preamble(text: Seq<char>) -> Seq<char> {
    let all = lines(text);
    match first_heading(all, 0) {
        Some(i) => if 0 < i <= all.len() {
            rejoined(all.subrange(i, all.len() as int), text)
        } else {
            text
        },
        None => text,
    }
}

/// Whether a line is one that the export added below a page.
pub open spec fn is_prompt(line: Seq<char>) -> bool {
    starts_with(trim(line), PROMPT_START@)
}

/// Those of the first `n` lines that are no prompt lines.
pub open spec fn kept_upto(lines: Seq<Seq<char>>, n: int) -> Seq<Seq<char>>
    decreases n,
{
    if n <= 0 {
        Seq::empty()
    } else if is_prompt(lines[n - 1]) {
        kept_upto(lines, n - 1)
    } else {
        kept_upto(lines, n - 1).push(lines[n - 1])
    }
}

/// The text without its prompt lines.
pub open spec fn without_prompts(text: Seq<char>) -> Seq<char> {
    rejoined(kept_upto(lines(text), lines(text).len() as int), text)
}

/// The text with a line feed in place of every backslash followed by `n`.
pub open spec fn with_line_feeds(text: Seq<char>) -> Seq<char> {
    replace(text, "\\n"@, "\n"@)
}

/// The text without the notices of the export.
pub open spec fn without_notices(text: Seq<char>) -> Seq<char> {
    replace_all(COPIED_PATTERN@, text, ""@)
}

/// What is written for an inline link: the same link on the host.
pub open spec fn inline_template() -> Seq<PartView> {
    seq![PartView::Text("]("@), PartView::Text(HOST@), PartView::Group(1), PartView::Text(")"@)]
}

/// What is written for a reference definition: the same on the host.
pub open spec fn reference_template() -> Seq<PartView> {
    seq![PartView::Group(1), PartView::Text(HOST@), PartView::Group(2)]
}

/// The text with every link to a path from the root pointing to the host:
/// the inline links first, then the reference definitions.
pub open spec fn with_host_links(text: Seq<char>) -> Seq<char> {
    rewritten(
        REFERENCE_LINK_PATTERN@,
        rewritten(INLINE_LINK_PATTERN@, text, inline_template()),
        reference_template(),
    )
}

/// What is written for a link to a file at a commit: the link without the
/// commit.
pub open spec fn blob_template() -> Seq<PartView> {
    seq![
        PartView::Text(HOST@),
        PartView::Text("/"@),
        PartView::Group(1),
        PartView::Text("/"@),
        PartView::Group(2),
        PartView::Text("/"@),
    ]
}

/// The text with the commit taken out of every link to a file.
pub open spec fn without_commits(text: Seq<char>) -> Seq<char> {
    rewritten(BLOB_PATTERN@, text, blob_template())
}

/// The sections of the main page that links name, each with its anchor.
pub open spec fn section_anchors() -> Seq<(Seq<char>, Seq<char>)> {
    seq![
        ("Networking Section"@, "networking-configuration"@),
        ("Virtual Environment Section"@, "virtual-environment-setup"@),
        ("Module Import Section"@, "module-import-issues"@),
        ("WSL.exe Section"@, "wslexe-issues"@),
        ("Path Translation Section"@, "path-translation-issues"@),
        ("Performance Section"@, "performance-optimization"@),
        ("Line Ending Section"@, "line-ending-issues"@),
        ("Distribution Section"@, "distribution-selection"@),
    ]
}

/// A link to a file at a commit, up to the file, with its owner,
/// repository and commit as groups.
pub const SECTION_LINK_START: &'static str =
    r"https://github\.com/(?P<owner>[^/]+)/(?P<repo>[^/]+)/blob/(?P<sha>[0-9a-f]{7,40})/";

/// The pattern of a link that names `section` as if it were a file.
pub open spec fn section_pattern(section: Seq<char>) -> Seq<char> {
    SECTION_LINK_START@ + escaped(section)
}

/// What is written for such a link: the main page at `anchor`.
pub open spec fn section_template(anchor: Seq<char>) -> Seq<PartView> {
    seq![
        PartView::Text(HOST@),
        PartView::Text("/"@),
        PartView::Group(1),
        PartView::Text("/"@),
        PartView::Group(2),
        PartView::Text("/blob/"@),
        PartView::Group(3),
        PartView::Text("/README.md#"@),
        PartView::Text(anchor),
    ]
}

/// The text after the links to the first `n` of `anchors` point to the main
/// page, one section after the other.
pub open spec fn anchored_upto(
    text: Seq<char>,
    anchors: Seq<(Seq<char>, Seq<char>)>,
    n: int,
) -> Seq<char>
    decreases n,
{
    if n <= 0 {
        text
    } else {
        rewritten(
            section_pattern(anchors[n - 1].0),
            anchored_upto(text, anchors, n - 1),
            section_template(anchors[n - 1].1),
        )
    }
}

/// The text with every link that names a section pointing to the anchor of
/// that section on the main page.
pub open spec fn with_section_links(text: Seq<char>) -> Seq<char> {
    anchored_upto(text, section_anchors(), section_anchors().len() as int)
}

/// The sections of the main page that links name, each with its anchor.
pub fn get_section_anchors() -> (r: Vec<(&'static str, &'static str)>)
    ensures
        r.deep_view() == section_anchors(),
{
    let mut r: Vec<(&'static str, &'static str)> = Vec::new();
    r.push(("Networking Section", "networking-configuration"));
    r.push(("Virtual Environment Section", "virtual-environment-setup"));
    r.push(("Module Import Section", "module-import-issues"));
    r.push(("WSL.exe Section", "wslexe-issues"));
    r.push(("Path Translation Section", "path-translation-issues"));
    r.push(("Performance Section", "performance-optimization"));
    r.push(("Line Ending Section", "line-ending-issues"));
    r.push(("Distribution Section", "distribution-selection"));
    assert(r.deep_view() =~= section_anchors());
    r
}

/// Drops what stands before the first heading.
pub fn strip_preamble(text: &str) -> (r: String)
    ensures
        r@ == without_preamble(text@),
{
    let all = split_lines(text);
    let mut i: usize = 0;
    let mut found = false;
    while i < all.len() && !found
        invariant
            i <= all.len(),
            first_heading(all.deep_view(), 0) == first_heading(all.deep_view(), i as int),
            found ==> i < all.len() && is_heading(all.deep_view()[i as int]),
        decreases all.len() - i + if found { 0int } else { 1int },
    {
        let head = trim_start_text(all[i].as_str());
        if text_starts_with(head.as_str(), "#") {
            found = true;
        } else {
            i += 1;
        }
    }
    if i == 0 || !found {
        return String::from_str(text);
    }
    let mut rest: Vec<String> = Vec::new();
    let mut k: usize = i;
    while k < all.len()
        invariant
            i <= k <= all.len(),
            rest.deep_view() == all.deep_view().subrange(i as int, k as int),
        decreases all.len() - k,
    {
        let ghost before = rest;
        let line = all[k].clone();
        rest.push(line);
        proof {
            lemma_texts_push(before, rest, line);
            assert(rest.deep_view() =~= all.deep_view().subrange(i as int, k + 1));
        }
        k += 1;
    }
    rejoin(&rest, text)
}

/// Drops the prompt lines.
pub fn remove_ask_devin_lines(text: &str) -> (r: String)
    ensures
        r@ == without_prompts(text@),
{
    let all = split_lines(text);
    let mut kept: Vec<String> = Vec::new();
    let mut i: usize = 0;
    assert(kept.deep_view() =~= Seq::<Seq<char>>::empty());
    while i < all.len()
        invariant
            i <= all.len(),
            kept.deep_view() == kept_upto(all.deep_view(), i as int),
        decreases all.len() - i,
    {
        let ghost before = kept;
        let body = trim_text(all[i].as_str());
        if !text_starts_with(body.as_str(), PROMPT_START) {
            let line = all[i].clone();
            kept.push(line);
            proof {
                lemma_texts_push(before, kept, line);
            }
        }
        i += 1;
    }
    rejoin(&kept, text)
}

/// Puts a line feed in place of every backslash followed by `n`.
pub fn fix_literal_backslash_n(text: &str) -> (r: String)
    ensures
        r@ == with_line_feeds(text@),
{
    proof {
        reveal_strlit("\\n");
    }
    replace_text(text, "\\n", "\n")
}

/// Drops the notices of the export.
pub fn remove_link_copied(text: &str) -> (r: String)
    ensures
        r@ == without_notices(text@),
{
    replace_matches(COPIED_PATTERN, text, "")
}

/// Points every link to a path from the root to the host.
pub fn fix_internal_links(text: &str) -> (r: String)
    ensures
        r@ == with_host_links(text@),
{
    let mut inline: Vec<Part> = Vec::new();
    inline.push(fixed("]("));
    inline.push(fixed(HOST));
    inline.push(Part::Group(1));
    inline.push(fixed(")"));
    assert(inline.deep_view() =~= inline_template());
    let mut reference: Vec<Part> = Vec::new();
    reference.push(Part::Group(1));
    reference.push(fixed(HOST));
    reference.push(Part::Group(2));
    assert(reference.deep_view() =~= reference_template());
    let first = rewrite(INLINE_LINK_PATTERN, text, &inline);
    rewrite(REFERENCE_LINK_PATTERN, first.as_str(), &reference)
}

/// Takes the commit out of every link to a file.
pub fn strip_github_blob_sha(text: &str) -> (r: String)
    ensures
        r@ == without_commits(text@),
{
    let mut template: Vec<Part> = Vec::new();
    template.push(fixed(HOST));
    template.push(fixed("/"));
    template.push(Part::Group(1));
    template.push(fixed("/"));
    template.push(Part::Group(2));
    template.push(fixed("/"));
    assert(template.deep_view() =~= blob_template());
    rewrite(BLOB_PATTERN, text, &template)
}

/// What is written for a link to the section with the given anchor.
fn section_parts(anchor: &str) -> (template: Vec<Part>)
    ensures
        template.deep_view() == section_template(anchor@),
{
    let mut template: Vec<Part> = Vec::new();
    template.push(fixed(HOST));
    template.push(fixed("/"));
    template.push(Part::Group(1));
    template.push(fixed("/"));
    template.push(Part::Group(2));
    template.push(fixed("/blob/"));
    template.push(Part::Group(3));
    template.push(fixed("/README.md#"));
    template.push(fixed(anchor));
    assert(template.deep_view() =~= section_template(anchor@));
    template
}

/// Points every link that names a section to the anchor of that section on
/// the main page.
pub fn fix_section_links(text: &str) -> (r: String)
    ensures
        r@ == with_section_links(text@),
{
    let anchors = get_section_anchors();
    let mut current = String::from_str(text);
    let mut n: usize = 0;
    while n < anchors.len()
        invariant
            n <= anchors.len(),
            anchors.deep_view() == section_anchors(),
            current@ == anchored_upto(text@, section_anchors(), n as int),
        decreases anchors.len() - n,
    {
        let (section, anchor) = anchors[n];
        assert(anchors.deep_view()[n as int] == (section@, anchor@));
        let pattern = String::from_str(SECTION_LINK_START).concat(escape(section).as_str());
        let template = section_parts(anchor);
        current = rewrite(pattern.as_str(), current.as_str(), &template);
        n += 1;
    }
    assert(anchors.deep_view().len() == anchors.len());
    current
}

} // verus!
