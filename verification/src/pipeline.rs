//! The whole treatment of one document.
use crate::block::{sanitize_mermaid, sanitized_text};
use crate::cleanup::{
    fix_internal_links, fix_literal_backslash_n, fix_section_links, remove_ask_devin_lines,
    remove_link_copied, strip_github_blob_sha, strip_preamble, with_host_links, with_line_feeds,
    with_section_links, without_commits, without_notices, without_preamble, without_prompts,
};
use crate::layout::{fix_long_lines, fix_table_content, with_fixed_tables, with_short_lines};
use vstd::prelude::*;

verus! {

/// The document after the clean-ups that come before the diagrams.
pub open spec fn tidied(text: Seq<char>) -> Seq<char> {
    without_commits(
        with_section_links(
            with_host_links(
                with_line_feeds(without_prompts(without_notices(without_preamble(text)))),
            ),
        ),
    )
}

/// The document as it is written out: tidied, its diagrams sanitized, its
/// tables and long lines broken.
pub open spec fn processed(text: Seq<char>) -> Seq<char> {
    with_short_lines(with_fixed_tables(sanitized_text(tidied(text))))
}

/// Treats one document.
pub fn process_text(text: &str) -> (r: String)
    ensures
        r@ == processed(text@),
{
    let text = strip_preamble(text);
    let text = remove_link_copied(text.as_str());
    let text = remove_ask_devin_lines(text.as_str());
    let text = fix_literal_backslash_n(text.as_str());
    let text = fix_internal_links(text.as_str());
    let text = fix_section_links(text.as_str());
    let text = strip_github_blob_sha(text.as_str());
    let text = sanitize_mermaid(text.as_str());
    let text = fix_table_content(text.as_str());
    fix_long_lines(text.as_str())
}

} // verus!
