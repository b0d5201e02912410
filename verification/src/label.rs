//! Quoted node labels: markdown that a diagram cannot show is taken out of
//! them, and a node whose label was lost shows its identifier.
use crate::pattern::{
    between, each, fixed, is_match, lemma_no_match_no_change, matches_in, regex_scan,
    replace_all, replace_matches, rewrite_until_gone, rewritten_times, rewritten_until_gone,
    scan, splice, FoundView, Part, PartView,
};
use crate::text::{push_str, string_of, trim, trim_text};
use vstd::prelude::*;

verus! {

/// The grammar of a quoted label in square brackets.
pub const NODE_LABEL_PATTERN: &'static str = r#"\["(.*?)"\]"#;

/// The grammar of an explicit line break inside a label.
pub const BREAK_PATTERN: &'static str = r"<br\s*/?>";

/// The grammar of the start of a list item: a number with a period, or a
/// bullet, then white space.
pub const LIST_ITEM_PATTERN: &'static str = r"^\s*(?:\d+\.\s+|[-*+]\s+)";

/// The grammar of a markdown link.
pub const LINK_PATTERN: &'static str = r"\[[^\]]+\]\([^)]+\)";

/// The grammar of a bare address.
pub const URL_PATTERN: &'static str = r"https?://\S+";

/// The grammar of a node whose label was lost.
pub const BROKEN_NODE_PATTERN: &'static str = r#"(\w+)\[broken-content\]\"\]"#;

/// What stands in place of a label that holds a list.
pub const LIST_NOTE: &'static str = "Unsupported markdown: list";

/// What stands in place of a link or an address.
pub const LINK_NOTE: &'static str = "Unsupported markdown: link";

/// Whether one of the segments of `label` between explicit line breaks
/// starts, once trimmed, as a list item does.
pub open spec fn has_list_marker(label: Seq<char>) -> bool {
    let parts = between(regex_scan(BREAK_PATTERN@, label));
    exists|i: int| 0 <= i < parts.len() && matches_in(LIST_ITEM_PATTERN@, trim(#[trigger] parts[i]))
}

/// Whether a text holds neither a markdown link nor a bare address.
pub open spec fn clean(text: Seq<char>) -> bool {
    !matches_in(LINK_PATTERN@, text) && !matches_in(URL_PATTERN@, text)
}

/// One round of replacement: the note on links in place of every markdown
/// link, and then of every bare address.
pub open spec fn round(text: Seq<char>) -> Seq<char> {
    replace_all(URL_PATTERN@, replace_all(LINK_PATTERN@, text, LINK_NOTE@), LINK_NOTE@)
}

/// The text after `n` rounds of replacement.
pub open spec fn rounds(text: Seq<char>, n: nat) -> Seq<char>
    decreases n,
{
    if n == 0 {
        text
    } else {
        rounds(round(text), (n - 1) as nat)
    }
}

/// The text after as many rounds of replacement as it takes to leave
/// neither link nor address, and after `left` rounds at most.
pub open spec fn settle(text: Seq<char>, left: nat) -> Seq<char>
    decreases left,
{
    if clean(text) || left == 0 {
        text
    } else {
        settle(round(text), (left - 1) as nat)
    }
}

/// The label that stands for `label`: the note on lists where the label
/// holds a list item; else the label with the note on links in place of
/// every markdown link and every bare address. Where putting the note in
/// place of an address makes a link of what was none, the replacement is
/// made again; a label takes as many rounds as it has characters, at most.
pub open spec fn sanitized(label: Seq<char>) -> Seq<char> {
    if has_list_marker(label) {
        LIST_NOTE@
    } else {
        settle(label, label.len())
    }
}

/// Whether the replacements in `label` did their work in `out`: neither
/// link nor address is left, unless every one of the rounds left one.
pub open spec fn links_gone(label: Seq<char>, out: Seq<char>) -> bool {
    clean(out) || forall|j: nat| j <= label.len() ==> !clean(#[trigger] rounds(label, j))
}

/// What `settle` gives holds neither link nor address, unless every one of
/// the rounds left one.
pub proof fn lemma_settle(text: Seq<char>, left: nat)
    ensures
        clean(settle(text, left)) || forall|j: nat| j <= left ==> !clean(#[trigger] rounds(text, j)),
    decreases left,
{
    if clean(text) || left == 0 {
        if !clean(text) {
            assert forall|j: nat| j <= left implies !clean(#[trigger] rounds(text, j)) by {
                assert(rounds(text, 0) == text);
            }
        }
    } else {
        lemma_settle(round(text), (left - 1) as nat);
        if !clean(settle(text, left)) {
            assert forall|j: nat| j <= left implies !clean(#[trigger] rounds(text, j)) by {
                if j > 0 {
                    assert(rounds(text, j) == rounds(round(text), (j - 1) as nat));
                    assert(!clean(rounds(round(text), (j - 1) as nat)));
                }
            }
        }
    }
}

/// A label without list item, link and address stays as it is.
pub proof fn lemma_clean_label_stays(label: Seq<char>)
    requires
        !has_list_marker(label),
        clean(label),
    ensures
        sanitized(label) == label,
{
}

/// A label between its delimiters.
pub open spec fn quoted(label: Seq<char>) -> Seq<char> {
    "[\""@ + label + "\"]"@
}

/// `line` with every quoted label sanitized.
pub open spec fn clean_line(line: Seq<char>) -> Seq<char> {
    let sc = regex_scan(NODE_LABEL_PATTERN@, line);
    sc.replaced(each(sc.found, |f: FoundView| quoted(sanitized(f.group(1)))))
}

/// What is written for a node that lost its label: the node with its
/// identifier as label.
pub open spec fn repair_template() -> Seq<PartView> {
    seq![
        PartView::Group(1),
        PartView::Text("[\""@),
        PartView::Group(1),
        PartView::Text("\"]"@),
    ]
}

/// `line` with the identifier of each node that lost its label as that
/// node's label; the repair is made again while it leaves such a node.
pub open spec fn repaired_line(line: Seq<char>) -> Seq<char> {
    rewritten_until_gone(BROKEN_NODE_PATTERN@, line, repair_template(), line.len())
}

/// Whether the repair of `line` did its work in `out`: no node that lost
/// its label is left, unless every one of the repairs left one.
pub open spec fn repair_done(line: Seq<char>, out: Seq<char>) -> bool {
    !matches_in(BROKEN_NODE_PATTERN@, out) || forall|j: nat|
        j <= line.len() ==> matches_in(
            BROKEN_NODE_PATTERN@,
            #[trigger] rewritten_times(BROKEN_NODE_PATTERN@, line, repair_template(), j),
        )
}

/// A line without a node that lost its label stays as it is; so a line that
/// the repair leaves without such a node stays in a second repair.
pub proof fn lemma_repaired_line_stays(line: Seq<char>)
    requires
        !matches_in(BROKEN_NODE_PATTERN@, line),
    ensures
        repaired_line(line) == line,
{
}

/// Whether `label` holds a list item.
pub fn contains_list_marker(label: &str) -> (b: bool)
    ensures
        b == has_list_marker(label@),
{
    let sc = scan(BREAK_PATTERN, label);
    let ghost parts = between(sc@);
    let mut i: usize = 0;
    while i < sc.found.len()
        invariant
            i <= sc.found.len(),
            parts == between(sc@),
            sc@ == regex_scan(BREAK_PATTERN@, label@),
            forall|k: int| 0 <= k < i ==> !matches_in(LIST_ITEM_PATTERN@, trim(#[trigger] parts[k])),
        decreases sc.found.len() - i,
    {
        let part = trim_text(sc.found[i].gap.as_str());
        if is_match(LIST_ITEM_PATTERN, part.as_str()) {
            assert(matches_in(LIST_ITEM_PATTERN@, trim(parts[i as int])));
            return true;
        }
        i += 1;
    }
    let last = trim_text(sc.rest.as_str());
    let b = is_match(LIST_ITEM_PATTERN, last.as_str());
    assert(parts[sc.found.len() as int] == sc.rest@);
    b
}

/// Whether a text holds neither a markdown link nor a bare address.
pub fn is_clean(text: &str) -> (b: bool)
    ensures
        b == clean(text@),
{
    !is_match(LINK_PATTERN, text) && !is_match(URL_PATTERN, text)
}

/// One round of replacement.
pub fn replace_links(text: &str) -> (r: String)
    ensures
        r@ == round(text@),
{
    let without_links = replace_matches(LINK_PATTERN, text, LINK_NOTE);
    replace_matches(URL_PATTERN, without_links.as_str(), LINK_NOTE)
}

/// The label that stands for `label`. Unless the label holds a list item,
/// the result holds neither link nor address, or else every one of the
/// rounds left one.
pub fn sanitize_label(label: &str) -> (r: String)
    ensures
        r@ == sanitized(label@),
        has_list_marker(label@) ==> r@ == LIST_NOTE@,
        !has_list_marker(label@) ==> links_gone(label@, r@),
        !has_list_marker(label@) && clean(label@) ==> r@ == label@,
{
    if contains_list_marker(label) {
        return String::from_str(LIST_NOTE);
    }
    proof {
        lemma_settle(label@, label@.len());
    }
    let mut current = String::from_str(label);
    let mut left: usize = label.unicode_len();
    loop
        invariant
            !has_list_marker(label@),
            settle(current@, left as nat) == settle(label@, label@.len()),
            clean(label@) ==> settle(label@, label@.len()) == label@,
            clean(settle(label@, label@.len())) || forall|j: nat|
                j <= label@.len() ==> !clean(#[trigger] rounds(label@, j)),
        decreases left,
    {
        if left == 0 || is_clean(current.as_str()) {
            return current;
        }
        current = replace_links(current.as_str());
        left -= 1;
    }
}

/// A label between its delimiters.
fn quote(label: &str) -> (r: String)
    ensures
        r@ == quoted(label@),
{
    let mut out: Vec<char> = Vec::new();
    push_str(&mut out, "[\"");
    push_str(&mut out, label);
    push_str(&mut out, "\"]");
    string_of(&out)
}

/// Sanitizes every quoted label of a line.
fn sanitize_line(line: &str) -> (r: String)
    ensures
        r@ == clean_line(line@),
        !matches_in(NODE_LABEL_PATTERN@, line@) ==> r@ == line@,
{
    let sc = scan(NODE_LABEL_PATTERN, line);
    let mut pieces: Vec<String> = Vec::new();
    let mut i: usize = 0;
    while i < sc.found.len()
        invariant
            i <= sc.found.len(),
            pieces.len() == i,
            forall|k: int|
                0 <= k < i ==> pieces@[k]@ == quoted(sanitized((#[trigger] sc@.found[k]).group(1))),
        decreases sc.found.len() - i,
    {
        let inner = sc.found[i].group_text(1);
        let clean = sanitize_label(inner.as_str());
        pieces.push(quote(clean.as_str()));
        i += 1;
    }
    assert(pieces.deep_view() =~= each(sc@.found, |f: FoundView| quoted(sanitized(f.group(1)))));
    proof {
        if sc.found.len() == 0 {
            lemma_no_match_no_change(sc@, line@, pieces.deep_view());
        }
    }
    splice(&sc, &pieces)
}

/// Repairs every node of a line that lost its label.
pub fn repair_line(line: &str) -> (r: String)
    ensures
        r@ == repaired_line(line@),
        !matches_in(BROKEN_NODE_PATTERN@, line@) ==> r@ == line@,
        repair_done(line@, r@),
{
    let mut template: Vec<Part> = Vec::new();
    template.push(Part::Group(1));
    template.push(fixed("[\""));
    template.push(Part::Group(1));
    template.push(fixed("\"]"));
    assert(template.deep_view() =~= repair_template());
    rewrite_until_gone(BROKEN_NODE_PATTERN, line, &template)
}

/// Sanitizes every quoted label of every line.
pub fn sanitize_node_labels(lines: &Vec<String>) -> (r: Vec<String>)
    ensures
        r.deep_view() == lines.deep_view().map_values(|l: Seq<char>| clean_line(l)),
        r.len() == lines.len(),
        forall|i: int|
            0 <= i < lines.len() && !matches_in(NODE_LABEL_PATTERN@, (#[trigger] lines@[i])@)
                ==> r@[i]@ == lines@[i]@,
{
    let mut out: Vec<String> = Vec::new();
    let mut i: usize = 0;
    while i < lines.len()
        invariant
            i <= lines.len(),
            out.len() == i,
            forall|k: int| 0 <= k < i ==> out@[k]@ == clean_line(lines@[k]@),
            forall|k: int|
                0 <= k < i && !matches_in(NODE_LABEL_PATTERN@, (#[trigger] lines@[k])@) ==> out@[k]@
                    == lines@[k]@,
        decreases lines.len() - i,
    {
        out.push(sanitize_line(lines[i].as_str()));
        i += 1;
    }
    assert(out.deep_view() =~= lines.deep_view().map_values(|l: Seq<char>| clean_line(l)));
    out
}

/// Gives every node that lost its label its identifier as label.
pub fn fix_malformed_nodes(lines: &Vec<String>) -> (r: Vec<String>)
    ensures
        r.deep_view() == lines.deep_view().map_values(|l: Seq<char>| repaired_line(l)),
        r.len() == lines.len(),
        forall|i: int|
            0 <= i < lines.len() && !matches_in(BROKEN_NODE_PATTERN@, (#[trigger] lines@[i])@)
                ==> r@[i]@ == lines@[i]@,
        forall|i: int| 0 <= i < lines.len() ==> repair_done(lines@[i]@, (#[trigger] r@[i])@),
{
    let mut out: Vec<String> = Vec::new();
    let mut i: usize = 0;
    while i < lines.len()
        invariant
            i <= lines.len(),
            out.len() == i,
            forall|k: int| 0 <= k < i ==> out@[k]@ == repaired_line(lines@[k]@),
            forall|k: int|
                0 <= k < i && !matches_in(BROKEN_NODE_PATTERN@, (#[trigger] lines@[k])@) ==> out@[k]@
                    == lines@[k]@,
            forall|k: int| 0 <= k < i ==> repair_done(lines@[k]@, (#[trigger] out@[k])@),
        decreases lines.len() - i,
    {
        out.push(repair_line(lines[i].as_str()));
        i += 1;
    }
    assert(out.deep_view() =~= lines.deep_view().map_values(|l: Seq<char>| repaired_line(l)));
    out
}

} // verus!
