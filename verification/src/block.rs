//! Diagram blocks: telling the kind of a block, sanitizing it, and finding
//! the fenced blocks of a document.
use crate::flowchart::{move_branch_labels, relabeled};
use crate::label::{clean_line, fix_malformed_nodes, repaired_line, sanitize_node_labels};
use crate::sequence::{aliased, fix_sequence_diagram_participants};
use crate::text::{
    contains, lemma_rejoined_lines, lines, plain_line_ends, rejoin, rejoined, split_lines, starts_with,
    text_contains, text_starts_with, trim, trim_text,
};
use vstd::prelude::*;

verus! {

/// What a diagram block draws.
#[derive(Clone, Copy, Debug, PartialEq, Eq, Structural)]
pub enum DiagramKind {
    Flowchart,
    Sequence,
    Unknown,
}

/// The marker that opens and closes a fenced block.
pub const FENCE: &'static str = "```";

/// The tag of the diagram language on an opening fence.
pub const DIAGRAM_TAG: &'static str = "mermaid";

/// The kind that a first line announces, the line being trimmed.
pub open spec fn announced(first: Seq<char>) -> DiagramKind {
    if starts_with(first, "flowchart"@) || starts_with(first, "graph"@) {
        DiagramKind::Flowchart
    } else if starts_with(first, "sequenceDiagram"@) {
        DiagramKind::Sequence
    } else {
        DiagramKind::Unknown
    }
}

/// The kind of the block that `lines` make from line `i` on.
pub open spec fn kind_from(lines: Seq<Seq<char>>, i: int) -> DiagramKind
    decreases lines.len() - i,
{
    if i < 0 || i >= lines.len() {
        DiagramKind::Unknown
    } else if trim(lines[i]).len() == 0 {
        kind_from(lines, i + 1)
    } else {
        announced(trim(lines[i]))
    }
}

/// The kind of a block: what its first line that is not blank announces.
pub open spec fn kind_of(lines: Seq<Seq<char>>) -> DiagramKind {
    kind_from(lines, 0)
}

/// The block with its labels sanitized and its broken nodes repaired.
pub open spec fn cleaned(lines: Seq<Seq<char>>) -> Seq<Seq<char>> {
    lines.map_values(|l: Seq<char>| clean_line(l)).map_values(|l: Seq<char>| repaired_line(l))
}

/// The kind by which a block is treated: the hint where one is given, else
/// the kind that the block announces.
pub open spec fn treated_as(lines: Seq<Seq<char>>, hint: Option<DiagramKind>) -> DiagramKind {
    match hint {
        Some(kind) => kind,
        None => kind_of(lines),
    }
}

/// The lines of one fenced diagram block, with its kind.
#[derive(Clone, Debug)]
pub struct DiagramBlock {
    pub lines: Vec<String>,
    pub kind: DiagramKind,
}

/// A diagram block as contracts speak of it.
pub struct DiagramBlockView {
    pub lines: Seq<Seq<char>>,
    pub kind: DiagramKind,
}

impl View for DiagramBlock {
    type V = DiagramBlockView;

    open spec fn view(&self) -> DiagramBlockView {
        DiagramBlockView { lines: self.lines.deep_view(), kind: self.kind }
    }
}

impl DeepView for DiagramBlock {
    type V = DiagramBlockView;

    open spec fn deep_view(&self) -> DiagramBlockView {
        self.view()
    }
}

/// The block that lines make: the lines, with the kind that they announce.
pub open spec fn block_of(lines: Seq<Seq<char>>) -> DiagramBlockView {
    DiagramBlockView { lines, kind: kind_of(lines) }
}

/// The sanitized block: cleaned, and then, by its kind, with its branch
/// labels moved or its participants aliased.
pub open spec fn sanitized_block(lines: Seq<Seq<char>>, hint: Option<DiagramKind>) -> Seq<
    Seq<char>,
> {
    match treated_as(lines, hint) {
        DiagramKind::Flowchart => relabeled(cleaned(lines)),
        DiagramKind::Sequence => aliased(cleaned(lines)),
        DiagramKind::Unknown => cleaned(lines),
    }
}

/// Whether a line opens a diagram block.
pub open spec fn opens_block(line: Seq<char>) -> bool {
    starts_with(line, FENCE@) && contains(line, DIAGRAM_TAG@)
}

/// Whether a line closes the block that is open.
pub open spec fn closes_block(line: Seq<char>) -> bool {
    starts_with(line, FENCE@)
}

/// One piece of a document, as the search for diagram blocks cuts it.
#[derive(Clone, Debug)]
pub enum Piece {
    /// A line outside every diagram block.
    Prose(String),
    /// The fence that opens a diagram block.
    Open(String),
    /// A diagram block: the lines between its fences.
    Block(DiagramBlock),
    /// The fence that closes a diagram block.
    Close(String),
}

/// A piece as contracts speak of it.
pub enum PieceView {
    Prose(Seq<char>),
    Open(Seq<char>),
    Block(DiagramBlockView),
    Close(Seq<char>),
}

impl View for Piece {
    type V = PieceView;

    open spec fn view(&self) -> PieceView {
        match self {
            Piece::Prose(l) => PieceView::Prose(l@),
            Piece::Open(l) => PieceView::Open(l@),
            Piece::Block(b) => PieceView::Block(b@),
            Piece::Close(l) => PieceView::Close(l@),
        }
    }
}

impl DeepView for Piece {
    type V = PieceView;

    open spec fn deep_view(&self) -> PieceView {
        self.view()
    }
}

/// Where the search stands: the pieces that are complete, and the lines of
/// the block that is open, if one is.
pub struct Reading {
    pub pieces: Seq<PieceView>,
    pub block: Option<Seq<Seq<char>>>,
}

/// The search after one more line. Inside a block the next line that
/// starts with the fence marker closes it, whatever else it holds.
pub open spec fn read_line(r: Reading, line: Seq<char>) -> Reading {
    match r.block {
        Some(b) => if closes_block(line) {
            Reading {
                pieces: r.pieces.push(PieceView::Block(block_of(b))).push(PieceView::Close(line)),
                block: None,
            }
        } else {
            Reading { pieces: r.pieces, block: Some(b.push(line)) }
        },
        None => if opens_block(line) {
            Reading { pieces: r.pieces.push(PieceView::Open(line)), block: Some(Seq::empty()) }
        } else {
            Reading { pieces: r.pieces.push(PieceView::Prose(line)), block: None }
        },
    }
}

/// The search after the first `n` lines.
pub open spec fn read_upto(lines: Seq<Seq<char>>, n: int) -> Reading
    decreases n,
{
    if n <= 0 {
        Reading { pieces: Seq::empty(), block: None }
    } else {
        read_line(read_upto(lines, n - 1), lines[n - 1])
    }
}

/// The pieces of a document. A block that the document leaves open ends
/// with the document.
pub open spec fn pieces_of(lines: Seq<Seq<char>>) -> Seq<PieceView> {
    let r = read_upto(lines, lines.len() as int);
    match r.block {
        Some(b) => r.pieces.push(PieceView::Block(block_of(b))),
        None => r.pieces,
    }
}

/// The lines that a piece holds.
pub open spec fn piece_lines(p: PieceView) -> Seq<Seq<char>> {
    match p {
        PieceView::Prose(l) => seq![l],
        PieceView::Open(l) => seq![l],
        PieceView::Block(b) => b.lines,
        PieceView::Close(l) => seq![l],
    }
}

/// The lines that pieces hold, in order.
pub open spec fn lines_in(pieces: Seq<PieceView>) -> Seq<Seq<char>>
    decreases pieces.len(),
{
    if pieces.len() == 0 {
        Seq::empty()
    } else {
        lines_in(pieces.drop_last()) + piece_lines(pieces.last())
    }
}

/// The lines of a piece as they are written out: those of a block
/// sanitized, any other line as it is.
pub open spec fn sanitized_piece(p: PieceView) -> Seq<Seq<char>> {
    match p {
        PieceView::Block(b) => sanitized_block(b.lines, Some(b.kind)),
        _ => piece_lines(p),
    }
}

/// The lines of pieces as they are written out, in order.
pub open spec fn sanitized_pieces(pieces: Seq<PieceView>) -> Seq<Seq<char>>
    decreases pieces.len(),
{
    if pieces.len() == 0 {
        Seq::empty()
    } else {
        sanitized_pieces(pieces.drop_last()) + sanitized_piece(pieces.last())
    }
}

/// The lines of a document with every diagram block sanitized.
pub open spec fn sanitized_lines(lines: Seq<Seq<char>>) -> Seq<Seq<char>> {
    sanitized_pieces(pieces_of(lines))
}

/// The lines of the pieces, with those of the open block behind them, are
/// the lines read.
pub proof fn lemma_reading_keeps_lines(lines: Seq<Seq<char>>, n: int)
    requires
        0 <= n <= lines.len(),
    ensures
        lines_in(read_upto(lines, n).pieces) + match read_upto(lines, n).block {
            Some(b) => b,
            None => Seq::empty(),
        } == lines.take(n),
    decreases n,
{
    if n > 0 {
        lemma_reading_keeps_lines(lines, n - 1);
        let before = read_upto(lines, n - 1);
        let after = read_upto(lines, n);
        let line = lines[n - 1];
        assert(lines.take(n) =~= lines.take(n - 1).push(line));
        match before.block {
            Some(b) => {
                if closes_block(line) {
                    let mid = before.pieces.push(PieceView::Block(block_of(b)));
                    assert(after.pieces.drop_last() =~= mid);
                    assert(mid.drop_last() =~= before.pieces);
                    assert(lines_in(mid) == lines_in(before.pieces) + b);
                    assert(lines_in(after.pieces) == lines_in(mid) + seq![line]);
                    assert(lines_in(after.pieces) + Seq::<Seq<char>>::empty() =~= lines_in(
                        before.pieces,
                    ) + b + seq![line]);
                } else {
                    assert(lines_in(after.pieces) + b.push(line) =~= lines_in(before.pieces) + b
                        + seq![line]);
                }
            },
            None => {
                assert(after.pieces.drop_last() =~= before.pieces);
                if opens_block(line) {
                    assert(lines_in(after.pieces) + Seq::<Seq<char>>::empty() =~= lines_in(
                        before.pieces,
                    ) + Seq::<Seq<char>>::empty() + seq![line]);
                } else {
                    assert(lines_in(after.pieces) + Seq::<Seq<char>>::empty() =~= lines_in(
                        before.pieces,
                    ) + Seq::<Seq<char>>::empty() + seq![line]);
                }
            },
        }
    } else {
        assert(lines.take(0) =~= Seq::<Seq<char>>::empty());
        assert(lines_in(read_upto(lines, 0).pieces) + Seq::<Seq<char>>::empty() =~= Seq::<
            Seq<char>,
        >::empty());
    }
}

/// Every block that the search finds has the kind that its lines announce.
pub proof fn lemma_blocks_have_their_kind(lines: Seq<Seq<char>>, i: int)
    requires
        0 <= i < pieces_of(lines).len(),
    ensures
        pieces_of(lines)[i] matches PieceView::Block(b) ==> b == block_of(b.lines),
{
    lemma_read_blocks_have_their_kind(lines, lines.len() as int, i);
}

/// Every block among the pieces read so far has the kind that its lines
/// announce.
pub proof fn lemma_read_blocks_have_their_kind(lines: Seq<Seq<char>>, n: int, i: int)
    ensures
        0 <= i < read_upto(lines, n).pieces.len() ==> (read_upto(lines, n).pieces[i] matches PieceView::Block(
            b,
        ) ==> b == block_of(b.lines)),
    decreases n,
{
    if n > 0 {
        lemma_read_blocks_have_their_kind(lines, n - 1, i);
    }
}

/// The search for blocks keeps every line: the lines of the pieces, in
/// order, are the lines of the document.
pub proof fn lemma_pieces_keep_lines(lines: Seq<Seq<char>>)
    ensures
        lines_in(pieces_of(lines)) == lines,
{
    lemma_reading_keeps_lines(lines, lines.len() as int);
    let r = read_upto(lines, lines.len() as int);
    assert(lines.take(lines.len() as int) =~= lines);
    match r.block {
        Some(b) => {
            assert(pieces_of(lines).drop_last() =~= r.pieces);
        },
        None => {
            assert(lines_in(r.pieces) + Seq::<Seq<char>>::empty() =~= lines_in(r.pieces));
        },
    }
}

/// The document with every diagram block sanitized; fences and the lines
/// outside the blocks stay as they are.
pub open spec fn sanitized_text(text: Seq<char>) -> Seq<char> {
    rejoined(sanitized_lines(lines(text)), text)
}

/// Lines of which none opens a block are pieces of prose, and are written
/// out as they are.
pub proof fn lemma_prose_is_kept(lines: Seq<Seq<char>>, n: int)
    requires
        0 <= n <= lines.len(),
        forall|i: int| 0 <= i < n ==> !opens_block(#[trigger] lines[i]),
    ensures
        read_upto(lines, n).block is None,
        sanitized_pieces(read_upto(lines, n).pieces) == lines.take(n),
    decreases n,
{
    if n > 0 {
        lemma_prose_is_kept(lines, n - 1);
        let before = read_upto(lines, n - 1);
        let after = read_upto(lines, n);
        assert(!opens_block(lines[n - 1]));
        assert(after.pieces.drop_last() =~= before.pieces);
        assert(sanitized_pieces(after.pieces) =~= lines.take(n - 1) + seq![lines[n - 1]]);
        assert(lines.take(n) =~= lines.take(n - 1) + seq![lines[n - 1]]);
    } else {
        assert(lines.take(0) =~= Seq::<Seq<char>>::empty());
    }
}

/// A document whose line ends are line feeds alone and in which no line
/// opens a diagram block stays as it is.
pub proof fn lemma_document_without_blocks_stays(text: Seq<char>)
    requires
        plain_line_ends(text),
        forall|i: int| 0 <= i < lines(text).len() ==> !opens_block(#[trigger] lines(text)[i]),
    ensures
        sanitized_text(text) == text,
{
    let all = lines(text);
    lemma_prose_is_kept(all, all.len() as int);
    assert(all.take(all.len() as int) =~= all);
    lemma_rejoined_lines(text);
}

/// The kind of a block.
pub fn classify(lines: &Vec<String>) -> (kind: DiagramKind)
    ensures
        kind == kind_of(lines.deep_view()),
{
    let mut i: usize = 0;
    while i < lines.len()
        invariant
            i <= lines.len(),
            kind_of(lines.deep_view()) == kind_from(lines.deep_view(), i as int),
        decreases lines.len() - i,
    {
        let first = trim_text(lines[i].as_str());
        if first.as_str().unicode_len() > 0 {
            let kind = if text_starts_with(first.as_str(), "flowchart") || text_starts_with(
                first.as_str(),
                "graph",
            ) {
                DiagramKind::Flowchart
            } else if text_starts_with(first.as_str(), "sequenceDiagram") {
                DiagramKind::Sequence
            } else {
                DiagramKind::Unknown
            };
            return kind;
        }
        i += 1;
    }
    DiagramKind::Unknown
}

/// Sanitizes the lines of one diagram block, treating it as the kind that
/// `hint` names, or as the kind that its own first line announces.
pub fn sanitize_block(lines: &Vec<String>, hint: Option<DiagramKind>) -> (r: Vec<String>)
    ensures
        r.deep_view() == sanitized_block(lines.deep_view(), hint),
        r.len() == lines.len(),
{
    let kind = match hint {
        Some(kind) => kind,
        None => classify(lines),
    };
    let labelled = sanitize_node_labels(lines);
    let mut clean = fix_malformed_nodes(&labelled);
    match kind {
        DiagramKind::Flowchart => {
            move_branch_labels(&mut clean);
            clean
        },
        DiagramKind::Sequence => fix_sequence_diagram_participants(&clean),
        DiagramKind::Unknown => clean,
    }
}

/// Sanitizes the lines of one diagram block.
pub fn sanitize_mermaid_block(lines: &Vec<String>) -> (r: Vec<String>)
    ensures
        r.deep_view() == sanitized_block(lines.deep_view(), None),
        r.len() == lines.len(),
{
    sanitize_block(lines, None)
}

impl DiagramBlock {
    /// The block that `lines` make.
    pub fn new(lines: Vec<String>) -> (b: DiagramBlock)
        ensures
            b@ == block_of(lines.deep_view()),
    {
        let kind = classify(&lines);
        DiagramBlock { lines, kind }
    }

    /// The sanitized lines of the block, treated as its kind.
    pub fn sanitize(&self) -> (r: Vec<String>)
        ensures
            r.deep_view() == sanitized_block(self@.lines, Some(self@.kind)),
            r.len() == self.lines.len(),
    {
        sanitize_block(&self.lines, Some(self.kind))
    }
}

/// Appends the lines of `more` to `out`.
fn append_lines(out: &mut Vec<String>, more: Vec<String>)
    ensures
        final(out).deep_view() == old(out).deep_view() + more.deep_view(),
{
    let mut more = more;
    let ghost added = more.deep_view();
    out.append(&mut more);
    assert(out.deep_view() =~= old(out).deep_view() + added);
}

/// Cuts a document into its pieces: the lines outside diagram blocks, the
/// fences, and the blocks.
pub fn extract_blocks(lines: &Vec<String>) -> (r: Vec<Piece>)
    ensures
        r.deep_view() == pieces_of(lines.deep_view()),
{
    let mut pieces: Vec<Piece> = Vec::new();
    let mut block: Vec<String> = Vec::new();
    let mut in_block = false;
    let mut i: usize = 0;
    assert(pieces.deep_view() =~= Seq::<PieceView>::empty());
    while i < lines.len()
        invariant
            i <= lines.len(),
            pieces.deep_view() == read_upto(lines.deep_view(), i as int).pieces,
            in_block == (read_upto(lines.deep_view(), i as int).block is Some),
            in_block ==> block.deep_view() == read_upto(lines.deep_view(), i as int).block->0,
        decreases lines.len() - i,
    {
        let ghost pieces_before = pieces.deep_view();
        let ghost block_before = block.deep_view();
        let line = lines[i].clone();
        if in_block {
            if text_starts_with(line.as_str(), FENCE) {
                let done = block;
                block = Vec::new();
                pieces.push(Piece::Block(DiagramBlock::new(done)));
                pieces.push(Piece::Close(line));
                assert(pieces.deep_view() =~= pieces_before.push(
                    PieceView::Block(block_of(block_before)),
                ).push(PieceView::Close(line@)));
                in_block = false;
            } else {
                block.push(line);
                assert(block.deep_view() =~= block_before.push(line@));
            }
        } else {
            if text_starts_with(line.as_str(), FENCE) && text_contains(line.as_str(), DIAGRAM_TAG) {
                in_block = true;
                block = Vec::new();
                assert(block.deep_view() =~= Seq::<Seq<char>>::empty());
                pieces.push(Piece::Open(line));
                assert(pieces.deep_view() =~= pieces_before.push(PieceView::Open(line@)));
            } else {
                pieces.push(Piece::Prose(line));
                assert(pieces.deep_view() =~= pieces_before.push(PieceView::Prose(line@)));
            }
        }
        i += 1;
    }
    if in_block {
        let ghost pieces_before = pieces.deep_view();
        let ghost block_before = block.deep_view();
        pieces.push(Piece::Block(DiagramBlock::new(block)));
        assert(pieces.deep_view() =~= pieces_before.push(PieceView::Block(block_of(block_before))));
    }
    pieces
}

/// Sanitizes every diagram block of a document.
pub fn sanitize_mermaid(text: &str) -> (r: String)
    ensures
        r@ == sanitized_text(text@),
{
    let all = split_lines(text);
    let pieces = extract_blocks(&all);
    let mut out: Vec<String> = Vec::new();
    let mut i: usize = 0;
    assert(out.deep_view() =~= Seq::<Seq<char>>::empty());
    while i < pieces.len()
        invariant
            i <= pieces.len(),
            out.deep_view() == sanitized_pieces(pieces.deep_view().take(i as int)),
        decreases pieces.len() - i,
    {
        let ghost before = out.deep_view();
        assert(pieces.deep_view()[i as int] == pieces@[i as int]@);
        assert(pieces.deep_view().take(i + 1).drop_last() =~= pieces.deep_view().take(i as int));
        match &pieces[i] {
            Piece::Block(b) => {
                let done = b.sanitize();
                append_lines(&mut out, done);
            },
            Piece::Prose(l) => {
                let line = l.clone();
                out.push(line);
                assert(out.deep_view() =~= before + seq![line@]);
            },
            Piece::Open(l) => {
                let line = l.clone();
                out.push(line);
                assert(out.deep_view() =~= before + seq![line@]);
            },
            Piece::Close(l) => {
                let line = l.clone();
                out.push(line);
                assert(out.deep_view() =~= before + seq![line@]);
            },
        }
        i += 1;
    }
    assert(pieces.deep_view().take(i as int) =~= pieces.deep_view());
    rejoin(&out, text)
}

} // verus!
