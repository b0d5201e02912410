//! What a printed edition needs of a document: its text with the diagrams
//! set apart, and the texts that stand around a drawn diagram.
use crate::block::{extract_blocks, pieces_of, sanitized_block, Piece, PieceView};
use crate::text::{
    decimal, join, join_texts, lemma_texts_push, lines, push_decimal, push_str, replace, replace_text,
    split_lines, starts_with, string_of, text_starts_with, trim_start, trim_start_text,
};
use vstd::prelude::*;

verus! {

/// One part of a document on its way to print.
#[derive(Clone, Debug)]
pub enum PdfPart {
    /// Text that is printed as it is.
    Text(String),
    /// The sanitized source of a diagram, to be drawn.
    Diagram(String),
}

/// A part as contracts speak of it.
pub enum PdfPartView {
    Text(Seq<char>),
    Diagram(Seq<char>),
}

impl View for PdfPart {
    type V = PdfPartView;

    open spec fn view(&self) -> PdfPartView {
        match self {
            PdfPart::Text(t) => PdfPartView::Text(t@),
            PdfPart::Diagram(d) => PdfPartView::Diagram(d@),
        }
    }
}

impl DeepView for PdfPart {
    type V = PdfPartView;

    open spec fn deep_view(&self) -> PdfPartView {
        self.view()
    }
}

/// The parts that pieces make: a line of prose with its line feed, a block
/// as the sanitized source of a diagram; the fences make none.
pub open spec fn parts_of(pieces: Seq<PieceView>) -> Seq<PdfPartView>
    decreases pieces.len(),
{
    if pieces.len() == 0 {
        Seq::empty()
    } else {
        let rest = parts_of(pieces.drop_last());
        match pieces.last() {
            PieceView::Prose(l) => rest.push(PdfPartView::Text(l + "\n"@)),
            PieceView::Block(b) => rest.push(
                PdfPartView::Diagram(join(sanitized_block(b.lines, Some(b.kind)), "\n"@)),
            ),
            _ => rest,
        }
    }
}

/// The parts of a document.
pub open spec fn pdf_parts_of(text: Seq<char>) -> Seq<PdfPartView> {
    parts_of(pieces_of(lines(text)))
}

/// The source of a diagram as a block of code, for where it is not drawn.
pub open spec fn code_block_of(content: Seq<char>) -> Seq<char> {
    "\n```\n"@ + content + "\n```\n\n"@
}

/// The reference to the image of the diagram with the given number.
pub open spec fn image_reference_of(number: nat, path: Seq<char>) -> Seq<char> {
    "\n![Diagram "@ + decimal(number) + "]("@ + path + ")\n\n"@
}

/// The file name of the image of the diagram with the given number.
pub open spec fn image_name_of(prefix: Seq<char>, number: nat) -> Seq<char> {
    prefix + "-diagram-"@ + decimal(number) + ".png"@
}

/// The prefix of the images of the section at the given place.
pub open spec fn section_prefix_of(place: nat, stem: Seq<char>) -> Seq<char> {
    "sec"@ + decimal(place) + "-"@ + stem
}

/// A main page without its first line, where it starts with a heading;
/// else as it is.
pub open spec fn without_title(text: Seq<char>) -> Seq<char> {
    if starts_with(trim_start(text), "#"@) {
        if lines(text).len() > 1 {
            join(lines(text).subrange(1, lines(text).len() as int), "\n"@)
        } else {
            Seq::empty()
        }
    } else {
        text
    }
}

/// The title page of a project, its name written so that the typesetter
/// takes every underscore as a character.
pub open spec fn title_page_of(name: Seq<char>) -> Seq<char> {
    "\\begin{titlepage}\n\\centering\n\\vspace*{3cm}\n{\\fontsize{32}{40}\\selectfont\\bfseries "@
        + replace(name, "_"@, "\\_"@) + " \\par}\n\\vfill\n\\end{titlepage}\n"@
}

/// Cuts a document into the parts that go to print.
pub fn pdf_parts(text: &str) -> (r: Vec<PdfPart>)
    ensures
        r.deep_view() == pdf_parts_of(text@),
{
    let all = split_lines(text);
    let pieces = extract_blocks(&all);
    let mut parts: Vec<PdfPart> = Vec::new();
    let mut i: usize = 0;
    assert(parts.deep_view() =~= Seq::<PdfPartView>::empty());
    while i < pieces.len()
        invariant
            i <= pieces.len(),
            parts.deep_view() == parts_of(pieces.deep_view().take(i as int)),
        decreases pieces.len() - i,
    {
        let ghost before = parts.deep_view();
        assert(pieces.deep_view()[i as int] == pieces@[i as int]@);
        assert(pieces.deep_view().take(i + 1).drop_last() =~= pieces.deep_view().take(i as int));
        match &pieces[i] {
            Piece::Prose(l) => {
                let t = l.clone().concat("\n");
                parts.push(PdfPart::Text(t));
                assert(parts.deep_view() =~= before.push(PdfPartView::Text(t@)));
            },
            Piece::Block(b) => {
                let done = b.sanitize();
                let d = join_texts(&done, "\n");
                parts.push(PdfPart::Diagram(d));
                assert(parts.deep_view() =~= before.push(PdfPartView::Diagram(d@)));
            },
            Piece::Open(_) => {},
            Piece::Close(_) => {},
        }
        i += 1;
    }
    assert(pieces.deep_view().take(i as int) =~= pieces.deep_view());
    parts
}

/// The source of a diagram as a block of code.
pub fn code_block(content: &str) -> (r: String)
    ensures
        r@ == code_block_of(content@),
{
    let mut out: Vec<char> = Vec::new();
    push_str(&mut out, "\n```\n");
    push_str(&mut out, content);
    push_str(&mut out, "\n```\n\n");
    string_of(&out)
}

/// The reference to the image of a diagram.
pub fn image_reference(number: usize, path: &str) -> (r: String)
    ensures
        r@ == image_reference_of(number as nat, path@),
{
    let mut out: Vec<char> = Vec::new();
    push_str(&mut out, "\n![Diagram ");
    push_decimal(&mut out, number);
    push_str(&mut out, "](");
    push_str(&mut out, path);
    push_str(&mut out, ")\n\n");
    string_of(&out)
}

/// The file name of the image of a diagram.
pub fn image_name(prefix: &str, number: usize) -> (r: String)
    ensures
        r@ == image_name_of(prefix@, number as nat),
{
    let mut out: Vec<char> = Vec::new();
    push_str(&mut out, prefix);
    push_str(&mut out, "-diagram-");
    push_decimal(&mut out, number);
    push_str(&mut out, ".png");
    string_of(&out)
}

/// The prefix of the images of a section.
pub fn section_prefix(place: usize, stem: &str) -> (r: String)
    ensures
        r@ == section_prefix_of(place as nat, stem@),
{
    let mut out: Vec<char> = Vec::new();
    push_str(&mut out, "sec");
    push_decimal(&mut out, place);
    push_str(&mut out, "-");
    push_str(&mut out, stem);
    string_of(&out)
}

/// A main page without its title line.
pub fn skip_title(text: &str) -> (r: String)
    ensures
        r@ == without_title(text@),
{
    let head = trim_start_text(text);
    if !text_starts_with(head.as_str(), "#") {
        return String::from_str(text);
    }
    let all = split_lines(text);
    if all.len() <= 1 {
        return String::new();
    }
    let mut rest: Vec<String> = Vec::new();
    let mut k: usize = 1;
    assert(rest.deep_view() =~= all.deep_view().subrange(1, 1));
    while k < all.len()
        invariant
            1 <= k <= all.len(),
            rest.deep_view() == all.deep_view().subrange(1, k as int),
        decreases all.len() - k,
    {
        let ghost before = rest;
        let line = all[k].clone();
        rest.push(line);
        proof {
            lemma_texts_push(before, rest, line);
            assert(rest.deep_view() =~= all.deep_view().subrange(1, k + 1));
        }
        k += 1;
    }
    join_texts(&rest, "\n")
}

/// The title page of a project.
pub fn title_page(name: &str) -> (r: String)
    ensures
        r@ == title_page_of(name@),
{
    proof {
        reveal_strlit("_");
    }
    let escaped = replace_text(name, "_", "\\_");
    let mut out: Vec<char> = Vec::new();
    push_str(
        &mut out,
        "\\begin{titlepage}\n\\centering\n\\vspace*{3cm}\n{\\fontsize{32}{40}\\selectfont\\bfseries ",
    );
    push_str(&mut out, escaped.as_str());
    push_str(&mut out, " \\par}\n\\vfill\n\\end{titlepage}\n");
    string_of(&out)
}

} // verus!
