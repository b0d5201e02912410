//! Flowchart blocks: reading the edges and node labels out of the lines,
//! moving the branch labels, and writing the edges back.
use crate::graph::{Edge, EdgeView};
use crate::label::NODE_LABEL_PATTERN;
use crate::migrate::{lemma_migrate_keeps_shape, migrate, migrate_labels};
use crate::pattern::{captures, first_captures};
use crate::settled::{lemma_migration_is_idempotent, single_feed};
use crate::text::{before, push_str, string_of, text_before, trim, trim_text};
use crate::textmap::TextMap;
use vstd::prelude::*;

verus! {

/// The grammar of an edge line: indent, source, arrow, an optional quoted
/// label between bars, destination.
pub const EDGE_PATTERN: &'static str =
    r#"^(?P<indent>\s*)(?P<src>[A-Za-z0-9_]+)\s*(?P<arrow>[-.=]+>)\s*(?:\|"(?P<label>[^"]*)"\|\s*)?(?P<dst>[A-Za-z0-9_]+)\s*$"#;

/// The edge that `line` states, if it states one.
pub open spec fn parse_edge(line: Seq<char>, idx: int) -> Option<EdgeView> {
    match first_captures(EDGE_PATTERN@, line) {
        Some(f) => Some(
            EdgeView {
                line_idx: idx,
                indent: f.group(1),
                src: f.group(2),
                arrow: f.group(3),
                label: if f.has_group(4) {
                    Some(f.group(4))
                } else {
                    None
                },
                dst: f.group(5),
            },
        ),
        None => None,
    }
}

/// The edges that the first `n` lines state, in order.
pub open spec fn edges_upto(lines: Seq<Seq<char>>, n: int) -> Seq<EdgeView>
    decreases n,
{
    if n <= 0 {
        Seq::empty()
    } else {
        let rest = edges_upto(lines, n - 1);
        match parse_edge(lines[n - 1], n - 1) {
            Some(e) => rest.push(e),
            None => rest,
        }
    }
}

/// The edges that `lines` state.
pub open spec fn edges_of(lines: Seq<Seq<char>>) -> Seq<EdgeView> {
    edges_upto(lines, lines.len() as int)
}

/// The node and the label that `line` declares: the text of its first quoted
/// label, for the identifier that stands before the first opening of one.
pub open spec fn declared(line: Seq<char>) -> Option<(Seq<char>, Seq<char>)> {
    match first_captures(NODE_LABEL_PATTERN@, line) {
        Some(f) => {
            let id = trim(before(line, "[\""@));
            if id.len() > 0 {
                Some((id, f.group(1)))
            } else {
                None
            }
        },
        None => None,
    }
}

/// The labels that the first `n` lines declare; a later declaration of a
/// node replaces an earlier one.
pub open spec fn labels_upto(lines: Seq<Seq<char>>, n: int) -> Map<Seq<char>, Seq<char>>
    decreases n,
{
    if n <= 0 {
        Map::empty()
    } else {
        let rest = labels_upto(lines, n - 1);
        match declared(lines[n - 1]) {
            Some((id, label)) => rest.insert(id, label),
            None => rest,
        }
    }
}

/// The labels that `lines` declare.
pub open spec fn labels_of(lines: Seq<Seq<char>>) -> Map<Seq<char>, Seq<char>> {
    labels_upto(lines, lines.len() as int)
}

/// The line that states `e`, with one space around the arrow and around the
/// label.
pub open spec fn render(e: EdgeView) -> Seq<char> {
    let head = e.indent + e.src + " "@ + e.arrow + " "@;
    match e.label {
        Some(l) => head + "|\""@ + l + "\"| "@ + e.dst,
        None => head + e.dst,
    }
}

/// `lines` with the first `n` of `edges` written at their line.
pub open spec fn written(lines: Seq<Seq<char>>, edges: Seq<EdgeView>, n: int) -> Seq<Seq<char>>
    decreases n,
{
    if n <= 0 {
        lines
    } else {
        let rest = written(lines, edges, n - 1);
        let e = edges[n - 1];
        if 0 <= e.line_idx < rest.len() {
            rest.update(e.line_idx, render(e))
        } else {
            rest
        }
    }
}

/// The block after its branch labels have moved: each line that states an
/// edge is written anew from the edge as the migration leaves it, and every
/// other line stays.
pub open spec fn relabeled(lines: Seq<Seq<char>>) -> Seq<Seq<char>> {
    let edges = migrate(edges_of(lines), labels_of(lines));
    written(lines, edges, edges.len() as int)
}

/// Every edge read from the first `n` lines stands at the line that states
/// it, and the edges stand in the order of their lines.
pub proof fn lemma_edges_upto(lines: Seq<Seq<char>>, n: int)
    requires
        0 <= n <= lines.len(),
    ensures
        forall|j: int|
            0 <= j < edges_upto(lines, n).len() ==> {
                let e = #[trigger] edges_upto(lines, n)[j];
                0 <= e.line_idx < n && parse_edge(lines[e.line_idx], e.line_idx) == Some(e)
            },
        forall|i: int, j: int|
            0 <= i < j < edges_upto(lines, n).len() ==> (#[trigger] edges_upto(lines, n)[i]).line_idx
                < (#[trigger] edges_upto(lines, n)[j]).line_idx,
    decreases n,
{
    if n > 0 {
        lemma_edges_upto(lines, n - 1);
    }
}

/// Writing edges back keeps the number of lines.
pub proof fn lemma_written_len(lines: Seq<Seq<char>>, edges: Seq<EdgeView>, m: int)
    ensures
        written(lines, edges, m).len() == lines.len(),
    decreases m,
{
    if m > 0 {
        lemma_written_len(lines, edges, m - 1);
    }
}

/// Writing edges back keeps the number of lines, and keeps every line at
/// which none of the edges stands.
pub proof fn lemma_written_keeps(lines: Seq<Seq<char>>, edges: Seq<EdgeView>, m: int, i: int)
    requires
        0 <= m <= edges.len(),
        forall|j: int| 0 <= j < m ==> (#[trigger] edges[j]).line_idx != i,
    ensures
        written(lines, edges, m).len() == lines.len(),
        0 <= i < lines.len() ==> written(lines, edges, m)[i] == lines[i],
    decreases m,
{
    if m > 0 {
        lemma_written_keeps(lines, edges, m - 1, i);
        assert(edges[m - 1].line_idx != i);
    }
}

/// Writing edges back puts at the line of each edge the line that states
/// it, where the edges stand at lines of their own.
pub proof fn lemma_written_puts(lines: Seq<Seq<char>>, edges: Seq<EdgeView>, m: int, j: int)
    requires
        0 <= j < m <= edges.len(),
        0 <= edges[j].line_idx < lines.len(),
        forall|a: int, b: int|
            0 <= a < b < edges.len() ==> (#[trigger] edges[a]).line_idx != (
            #[trigger] edges[b]).line_idx,
    ensures
        written(lines, edges, m).len() == lines.len(),
        written(lines, edges, m)[edges[j].line_idx] == render(edges[j]),
    decreases m,
{
    lemma_written_len(lines, edges, m - 1);
    if j < m - 1 {
        lemma_written_puts(lines, edges, m - 1, j);
        assert(edges[j].line_idx != edges[m - 1].line_idx);
    }
}

/// A block keeps its number of lines when its branch labels move, and every
/// line that states no edge stays as it is.
pub proof fn lemma_other_lines_stay(lines: Seq<Seq<char>>, i: int)
    ensures
        relabeled(lines).len() == lines.len(),
        0 <= i < lines.len() && parse_edge(lines[i], i) is None ==> relabeled(lines)[i] == lines[i],
{
    let before = edges_of(lines);
    let after = migrate(before, labels_of(lines));
    lemma_edges_upto(lines, lines.len() as int);
    lemma_migrate_keeps_shape(before, labels_of(lines));
    if 0 <= i < lines.len() && parse_edge(lines[i], i) is None {
        assert forall|j: int| 0 <= j < after.len() implies (#[trigger] after[j]).line_idx != i by {
            assert(after[j].with_label(None) == before[j].with_label(None));
            assert(after[j].line_idx == before[j].line_idx);
        }
        lemma_written_keeps(lines, after, after.len() as int, i);
    } else {
        lemma_written_len(lines, after, after.len() as int);
    }
}

/// The line of every edge of a block is written anew from the edge as the
/// migration leaves it.
pub proof fn lemma_edge_lines_are_rendered(lines: Seq<Seq<char>>, j: int)
    requires
        0 <= j < edges_of(lines).len(),
    ensures
        migrate(edges_of(lines), labels_of(lines)).len() == edges_of(lines).len(),
        0 <= edges_of(lines)[j].line_idx < lines.len(),
        relabeled(lines)[edges_of(lines)[j].line_idx] == render(
            migrate(edges_of(lines), labels_of(lines))[j],
        ),
{
    let before = edges_of(lines);
    let after = migrate(before, labels_of(lines));
    lemma_edges_upto(lines, lines.len() as int);
    lemma_migrate_keeps_shape(before, labels_of(lines));
    assert forall|a: int| 0 <= a < after.len() implies (#[trigger] after[a]).line_idx
        == before[a].line_idx by {
        assert(after[a].with_label(None) == before[a].with_label(None));
    }
    assert forall|a: int, b: int| 0 <= a < b < after.len() implies (#[trigger] after[a]).line_idx
        != (#[trigger] after[b]).line_idx by {
        assert(before[a].line_idx < before[b].line_idx);
    }
    lemma_written_puts(lines, after, after.len() as int, j);
}

/// Writing edges back to lines that state them already changes nothing.
pub proof fn lemma_written_again(lines: Seq<Seq<char>>, edges: Seq<EdgeView>, m: int)
    requires
        0 <= m <= edges.len(),
        forall|j: int|
            0 <= j < m ==> 0 <= (#[trigger] edges[j]).line_idx < lines.len()
                && lines[edges[j].line_idx] == render(edges[j]),
    ensures
        written(lines, edges, m) == lines,
    decreases m,
{
    if m > 0 {
        lemma_written_again(lines, edges, m - 1);
        let e = edges[m - 1];
        assert(lines.update(e.line_idx, render(e)) =~= lines);
    }
}

/// A second move of the branch labels changes nothing in a block where no
/// two edges whose label may move lead to the same node, provided that the
/// lines as the first move left them are read as they were written: they
/// state the edges that were written, and declare the labels they declared.
pub proof fn lemma_relabeled_again(lines: Seq<Seq<char>>)
    requires
        single_feed(edges_of(lines)),
        edges_of(relabeled(lines)) == migrate(edges_of(lines), labels_of(lines)),
        labels_of(relabeled(lines)) == labels_of(lines),
    ensures
        relabeled(relabeled(lines)) == relabeled(lines),
{
    let edges = edges_of(lines);
    let labels = labels_of(lines);
    let after = migrate(edges, labels);
    let once = relabeled(lines);
    lemma_migration_is_idempotent(edges, labels);
    lemma_migrate_keeps_shape(edges, labels);
    lemma_other_lines_stay(lines, 0);
    assert forall|j: int| 0 <= j < after.len() implies 0 <= (#[trigger] after[j]).line_idx
        < once.len() && once[after[j].line_idx] == render(after[j]) by {
        lemma_edge_lines_are_rendered(lines, j);
        assert(after[j].with_label(None) == edges[j].with_label(None));
        assert(after[j].line_idx == edges[j].line_idx);
    }
    lemma_written_again(once, after, after.len() as int);
}

/// The edge that `line` states.
pub fn read_edge(line: &str, idx: usize) -> (r: Option<Edge>)
    ensures
        r.deep_view() == parse_edge(line@, idx as int),
{
    match captures(EDGE_PATTERN, line) {
        Some(f) => {
            let label = if f.has(4) {
                Some(f.group_text(4))
            } else {
                None
            };
            Some(
                Edge {
                    line_idx: idx,
                    indent: f.group_text(1),
                    src: f.group_text(2),
                    arrow: f.group_text(3),
                    label,
                    dst: f.group_text(5),
                },
            )
        },
        None => None,
    }
}

/// The node and the label that `line` declares.
pub fn read_declaration(line: &str) -> (r: Option<(String, String)>)
    ensures
        r.deep_view() == declared(line@),
{
    match captures(NODE_LABEL_PATTERN, line) {
        Some(f) => {
            let head = text_before(line, "[\"");
            let id = trim_text(head.as_str());
            if id.as_str().unicode_len() > 0 {
                Some((id, f.group_text(1)))
            } else {
                None
            }
        },
        None => None,
    }
}

/// The line that states `e`.
pub fn render_edge(e: &Edge) -> (r: String)
    ensures
        r@ == render(e@),
{
    let mut out: Vec<char> = Vec::new();
    push_str(&mut out, e.indent.as_str());
    push_str(&mut out, e.src.as_str());
    push_str(&mut out, " ");
    push_str(&mut out, e.arrow.as_str());
    push_str(&mut out, " ");
    match &e.label {
        Some(l) => {
            push_str(&mut out, "|\"");
            push_str(&mut out, l.as_str());
            push_str(&mut out, "\"| ");
        },
        None => {},
    }
    push_str(&mut out, e.dst.as_str());
    assert(out@ =~= render(e@));
    string_of(&out)
}

/// Moves the branch labels of a flowchart block and writes every edge line
/// anew.
pub fn move_branch_labels(lines: &mut Vec<String>)
    ensures
        final(lines).deep_view() == relabeled(old(lines).deep_view()),
        final(lines).len() == old(lines).len(),
{
    let ghost start = lines.deep_view();
    proof {
        lemma_other_lines_stay(start, 0);
    }
    let mut edges: Vec<Edge> = Vec::new();
    let mut node_labels = TextMap::new();
    let mut i: usize = 0;
    assert(edges.deep_view() =~= Seq::<EdgeView>::empty());
    while i < lines.len()
        invariant
            i <= lines.len(),
            lines.deep_view() == start,
            edges.deep_view() == edges_upto(start, i as int),
            node_labels@ == labels_upto(start, i as int),
        decreases lines.len() - i,
    {
        let ghost before_edges = edges.deep_view();
        match read_declaration(lines[i].as_str()) {
            Some((id, label)) => {
                node_labels.insert(id, label);
            },
            None => {},
        }
        match read_edge(lines[i].as_str(), i) {
            Some(e) => {
                edges.push(e);
                assert(edges.deep_view() =~= before_edges.push(e@));
            },
            None => {},
        }
        i += 1;
    }
    migrate_labels(&mut edges, &node_labels);
    let ghost moved = edges.deep_view();
    let mut n: usize = 0;
    while n < edges.len()
        invariant
            n <= edges.len(),
            edges.deep_view() == moved,
            lines.deep_view() == written(start, moved, n as int),
        decreases edges.len() - n,
    {
        let ghost before_lines = lines.deep_view();
        let idx = edges[n].line_idx;
        if idx < lines.len() {
            let line = render_edge(&edges[n]);
            lines.set(idx, line);
            assert(lines.deep_view() =~= before_lines.update(idx as int, line@));
        }
        n += 1;
    }
}

} // verus!
