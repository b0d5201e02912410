//! Fitting a document to the page: long table cells and long lines are
//! broken.
use crate::text::{
    join, join_texts, lemma_texts_push, lines, push_all, push_str, split, split_lines, split_text,
    split_words, starts_with, string_of, text_starts_with, trim, trim_text, words,
};
use vstd::prelude::*;
use vstd::utf8::encode_utf8;

verus! {

/// The most bytes that a table cell holds on one line.
pub const CELL_WIDTH: usize = 30;

/// The most bytes that a line of prose holds.
pub const LINE_WIDTH: usize = 80;

/// What stands between the lines of a broken table cell.
pub const CELL_BREAK: &'static str = "<br>";

/// The marker that opens and closes a block of code.
pub const CODE_FENCE: &'static str = "```";

/// The length of a text in bytes, as the machine counts them.
pub open spec fn byte_len(s: Seq<char>) -> usize {
    encode_utf8(s).len() as usize
}

/// Where the breaking of words into lines stands: the lines that are full,
/// and the line that is being filled.
pub struct Wrapping {
    pub full: Seq<Seq<char>>,
    pub current: Seq<char>,
}

/// Whether `word` still goes on the line `current` behind a space.
pub open spec fn fits(current: Seq<char>, word: Seq<char>, width: int) -> bool {
    byte_len(current) + 1 + byte_len(word) <= width
}

/// The breaking after the first `n` words: each word goes on the current
/// line while it fits, and starts a new line when it does not.
pub open spec fn wrap_upto(words: Seq<Seq<char>>, width: int, n: int) -> Wrapping
    decreases n,
{
    if n <= 0 {
        Wrapping { full: Seq::empty(), current: Seq::empty() }
    } else {
        let w = wrap_upto(words, width, n - 1);
        let word = words[n - 1];
        if w.current.len() == 0 {
            Wrapping { full: w.full, current: word }
        } else if fits(w.current, word, width) {
            Wrapping { full: w.full, current: w.current + " "@ + word }
        } else {
            Wrapping { full: w.full.push(w.current), current: word }
        }
    }
}

/// The lines into which `words` break at the given width.
pub open spec fn wrapped(words: Seq<Seq<char>>, width: int) -> Seq<Seq<char>> {
    let w = wrap_upto(words, width, words.len() as int);
    if w.current.len() == 0 {
        w.full
    } else {
        w.full.push(w.current)
    }
}

/// Whether a line is a row of a table.
pub open spec fn is_table_row(line: Seq<char>) -> bool {
    starts_with(trim(line), "|"@)
}

/// What is written for a column: its trimmed text, broken into lines of the
/// cell width where it is longer than that.
pub open spec fn cell(column: Seq<char>) -> Seq<char> {
    let c = trim(column);
    if byte_len(c) > CELL_WIDTH {
        join(wrapped(words(c), CELL_WIDTH as int), CELL_BREAK@)
    } else {
        c
    }
}

/// The cells of the columns from the second up to, and without, column `n`.
pub open spec fn cells_upto(columns: Seq<Seq<char>>, n: int) -> Seq<char>
    decreases n,
{
    if n <= 1 {
        Seq::empty()
    } else {
        cells_upto(columns, n - 1) + " "@ + cell(columns[n - 1]) + " |"@
    }
}

/// What is written for a row: for a table row its cells between bars,
/// without what stands before the first bar and after the last; any other
/// row as it is. A line feed ends it.
pub open spec fn fixed_row(row: Seq<char>) -> Seq<char> {
    if is_table_row(row) {
        let columns = split(row, '|');
        "|"@ + cells_upto(columns, columns.len() - 1) + "\n"@
    } else {
        row + "\n"@
    }
}

/// What is written for the first `n` rows.
pub open spec fn fixed_rows_upto(rows: Seq<Seq<char>>, n: int) -> Seq<char>
    decreases n,
{
    if n <= 0 {
        Seq::empty()
    } else {
        fixed_rows_upto(rows, n - 1) + fixed_row(rows[n - 1])
    }
}

/// What is written for a table.
pub open spec fn fixed_rows(rows: Seq<Seq<char>>) -> Seq<char> {
    fixed_rows_upto(rows, rows.len() as int)
}

/// Where the reading of a document with tables stands: the text put out,
/// and the rows of the table that is open, if one is.
pub struct TableReading {
    pub out: Seq<char>,
    pub rows: Option<Seq<Seq<char>>>,
}

/// The reading after one more line: a table row joins the open table or
/// opens one; any other line closes the open table, which is written with
/// an empty line behind it, and is put out itself.
pub open spec fn read_table_line(r: TableReading, line: Seq<char>) -> TableReading {
    if is_table_row(line) {
        match r.rows {
            Some(rows) => TableReading { out: r.out, rows: Some(rows.push(line)) },
            None => TableReading { out: r.out, rows: Some(seq![line]) },
        }
    } else {
        match r.rows {
            Some(rows) => TableReading {
                out: r.out + fixed_rows(rows) + "\n"@ + line + "\n"@,
                rows: None,
            },
            None => TableReading { out: r.out + line + "\n"@, rows: None },
        }
    }
}

/// The reading after the first `n` lines.
pub open spec fn read_tables_upto(lines: Seq<Seq<char>>, n: int) -> TableReading
    decreases n,
{
    if n <= 0 {
        TableReading { out: Seq::empty(), rows: None }
    } else {
        read_table_line(read_tables_upto(lines, n - 1), lines[n - 1])
    }
}

/// The document with the cells of its tables broken. Every line ends with a
/// line feed; a table that ends the document is written without an empty
/// line behind it.
pub open spec fn with_fixed_tables(text: Seq<char>) -> Seq<char> {
    let r = read_tables_upto(lines(text), lines(text).len() as int);
    match r.rows {
        Some(rows) => r.out + fixed_rows(rows),
        None => r.out,
    }
}

/// The result of `String::from_utf8_lossy`: the text that the bytes encode,
/// with a replacement character for what encodes none.
pub uninterp spec fn utf8_lossy(bytes: Seq<u8>) -> Seq<char>;

/// `String::from_utf8_lossy`: the result is a function of the bytes alone,
/// and `utf8_lossy` is its name.
#[verifier::external_body]
pub(crate) fn decode_lossy(bytes: &Vec<u8>) -> (r: String)
    ensures
        r@ == utf8_lossy(bytes@),
{
    String::from_utf8_lossy(bytes).into_owned()
}

/// The chunks of `size` bytes into which `bytes` fall from `pos` on, the
/// last one shorter where the bytes run out, each decoded by itself.
pub open spec fn chunks_from(bytes: Seq<u8>, size: int, pos: int) -> Seq<Seq<char>>
    decreases bytes.len() - pos,
{
    if size <= 0 || pos < 0 || pos >= bytes.len() {
        Seq::empty()
    } else if pos + size >= bytes.len() {
        seq![utf8_lossy(bytes.subrange(pos, bytes.len() as int))]
    } else {
        seq![utf8_lossy(bytes.subrange(pos, pos + size))] + chunks_from(bytes, size, pos + size)
    }
}

/// A line cut after every `LINE_WIDTH` bytes, whatever the bytes encode.
pub open spec fn chunked(line: Seq<char>) -> Seq<char> {
    join(chunks_from(encode_utf8(line), LINE_WIDTH as int, 0), "\n"@)
}

/// The first `n` of `parts`, each with a line feed behind it.
pub open spec fn each_line_upto(parts: Seq<Seq<char>>, n: int) -> Seq<char>
    decreases n,
{
    if n <= 0 {
        Seq::empty()
    } else {
        each_line_upto(parts, n - 1) + parts[n - 1] + "\n"@
    }
}

/// Where the reading of a document with code stands.
pub struct CodeReading {
    pub out: Seq<char>,
    pub in_code: bool,
}

/// Whether a line opens or closes a block of code.
pub open spec fn is_code_fence(line: Seq<char>) -> bool {
    starts_with(trim(line), CODE_FENCE@)
}

/// What is written for a line that is no fence: a line of code of more than
/// twice the line width is cut in chunks; a line of prose above the line
/// width is broken between its words; any other line stays.
pub open spec fn fitted(line: Seq<char>, in_code: bool) -> Seq<char> {
    if in_code && byte_len(line) > 2 * LINE_WIDTH {
        chunked(line) + "\n"@
    } else if !in_code && byte_len(line) > LINE_WIDTH {
        let broken = wrapped(words(line), LINE_WIDTH as int);
        each_line_upto(broken, broken.len() as int)
    } else {
        line + "\n"@
    }
}

/// The reading after one more line: a fence opens or closes a block of
/// code and is put out as it is; any other line is fitted.
pub open spec fn read_code_line(r: CodeReading, line: Seq<char>) -> CodeReading {
    if is_code_fence(line) {
        CodeReading { out: r.out + line + "\n"@, in_code: !r.in_code }
    } else {
        CodeReading { out: r.out + fitted(line, r.in_code), in_code: r.in_code }
    }
}

/// The reading after the first `n` lines.
pub open spec fn read_code_upto(lines: Seq<Seq<char>>, n: int) -> CodeReading
    decreases n,
{
    if n <= 0 {
        CodeReading { out: Seq::empty(), in_code: false }
    } else {
        read_code_line(read_code_upto(lines, n - 1), lines[n - 1])
    }
}

/// The document with its long lines broken. Every line ends with a line
/// feed.
pub open spec fn with_short_lines(text: Seq<char>) -> Seq<char> {
    read_code_upto(lines(text), lines(text).len() as int).out
}

/// Breaks `words` into lines of at most `width` bytes where the words
/// allow it.
pub fn wrap_words(words: &Vec<String>, width: usize) -> (r: Vec<String>)
    ensures
        r.deep_view() == wrapped(words.deep_view(), width as int),
{
    let mut full: Vec<String> = Vec::new();
    let mut current = String::new();
    let mut n: usize = 0;
    assert(full.deep_view() =~= Seq::<Seq<char>>::empty());
    while n < words.len()
        invariant
            n <= words.len(),
            full.deep_view() == wrap_upto(words.deep_view(), width as int, n as int).full,
            current@ == wrap_upto(words.deep_view(), width as int, n as int).current,
        decreases words.len() - n,
    {
        let ghost before = full;
        let word = words[n].clone();
        if current.as_str().is_empty() {
            current = word;
        } else {
            let a = current.as_str().len();
            let b = word.as_str().len();
            if a < width && b <= width - a - 1 {
                current = current.concat(" ").concat(word.as_str());
            } else {
                full.push(current);
                proof {
                    lemma_texts_push(before, full, current);
                }
                current = word;
            }
        }
        n += 1;
    }
    if !current.as_str().is_empty() {
        let ghost before = full;
        full.push(current);
        proof {
            lemma_texts_push(before, full, current);
        }
    }
    full
}

/// What is written for a column.
fn fix_cell(column: &str) -> (r: String)
    ensures
        r@ == cell(column@),
{
    let c = trim_text(column);
    if c.as_str().len() > CELL_WIDTH {
        let parts = split_words(c.as_str());
        let broken = wrap_words(&parts, CELL_WIDTH);
        join_texts(&broken, CELL_BREAK)
    } else {
        c
    }
}

/// Appends to `out` what is written for a row.
fn fix_row(out: &mut Vec<char>, row: &str)
    ensures
        final(out)@ == old(out)@ + fixed_row(row@),
{
    let body = trim_text(row);
    if text_starts_with(body.as_str(), "|") {
        let columns = split_text(row, '|');
        let mut piece: Vec<char> = Vec::new();
        push_str(&mut piece, "|");
        let last: usize = if columns.len() > 0 {
            columns.len() - 1
        } else {
            0
        };
        let mut i: usize = 1;
        while i < last
            invariant
                1 <= i,
                i <= last || i == 1,
                last == if columns.len() > 0 {
                    columns.len() - 1
                } else {
                    0
                },
                piece@ == "|"@ + cells_upto(columns.deep_view(), i as int),
            decreases last - i,
        {
            let ghost head = piece@;
            let c = fix_cell(columns[i].as_str());
            push_str(&mut piece, " ");
            push_str(&mut piece, c.as_str());
            push_str(&mut piece, " |");
            assert(columns.deep_view()[i as int] == columns@[i as int]@);
            assert(piece@ =~= head + " "@ + cell(columns.deep_view()[i as int]) + " |"@);
            assert(piece@ =~= "|"@ + cells_upto(columns.deep_view(), i + 1));
            i += 1;
        }
        assert(columns.len() == columns.deep_view().len());
        assert(cells_upto(columns.deep_view(), i as int) == cells_upto(
            columns.deep_view(),
            columns.len() - 1,
        )) by {
            if last <= 1 {
                assert(i == 1);
            }
        }
        push_str(&mut piece, "\n");
        assert(piece@ =~= fixed_row(row@));
        push_all(out, &piece);
    } else {
        let ghost start = out@;
        push_str(out, row);
        push_str(out, "\n");
        assert(out@ =~= start + fixed_row(row@));
    }
}

/// Writes the rows of a table with their long cells broken.
pub fn fix_table_rows(rows: &Vec<String>) -> (r: String)
    ensures
        r@ == fixed_rows(rows.deep_view()),
{
    let mut out: Vec<char> = Vec::new();
    let mut n: usize = 0;
    while n < rows.len()
        invariant
            n <= rows.len(),
            out@ == fixed_rows_upto(rows.deep_view(), n as int),
        decreases rows.len() - n,
    {
        fix_row(&mut out, rows[n].as_str());
        n += 1;
    }
    string_of(&out)
}

/// Breaks the long cells of the tables of a document.
pub fn fix_table_content(text: &str) -> (r: String)
    ensures
        r@ == with_fixed_tables(text@),
{
    let all = split_lines(text);
    let mut out: Vec<char> = Vec::new();
    let mut rows: Vec<String> = Vec::new();
    let mut in_table = false;
    let mut n: usize = 0;
    while n < all.len()
        invariant
            n <= all.len(),
            out@ == read_tables_upto(all.deep_view(), n as int).out,
            in_table == (read_tables_upto(all.deep_view(), n as int).rows is Some),
            in_table ==> rows.deep_view() == read_tables_upto(all.deep_view(), n as int).rows->0,
        decreases all.len() - n,
    {
        let ghost rows_before = rows;
        let line = all[n].clone();
        let body = trim_text(line.as_str());
        if text_starts_with(body.as_str(), "|") {
            if !in_table {
                in_table = true;
                rows = Vec::new();
                let ghost empty = rows;
                rows.push(line);
                proof {
                    lemma_texts_push(empty, rows, line);
                    assert(rows.deep_view() =~= seq![line@]);
                }
            } else {
                rows.push(line);
                proof {
                    lemma_texts_push(rows_before, rows, line);
                }
            }
        } else {
            if in_table {
                in_table = false;
                let table = fix_table_rows(&rows);
                push_str(&mut out, table.as_str());
                push_str(&mut out, "\n");
            }
            push_str(&mut out, line.as_str());
            push_str(&mut out, "\n");
            assert(out@ =~= read_table_line(
                read_tables_upto(all.deep_view(), n as int),
                line@,
            ).out);
        }
        n += 1;
    }
    if in_table {
        let table = fix_table_rows(&rows);
        push_str(&mut out, table.as_str());
    }
    string_of(&out)
}

/// Cuts a line after every `LINE_WIDTH` bytes.
fn chunk_line(line: &str) -> (r: String)
    ensures
        r@ == chunked(line@),
{
    let bytes = line.as_bytes_vec();
    let mut parts: Vec<String> = Vec::new();
    let mut pos: usize = 0;
    assert(parts.deep_view() =~= Seq::<Seq<char>>::empty());
    while pos < bytes.len()
        invariant
            pos <= bytes.len(),
            bytes@ == encode_utf8(line@),
            parts.deep_view() + chunks_from(bytes@, LINE_WIDTH as int, pos as int) == chunks_from(
                bytes@,
                LINE_WIDTH as int,
                0,
            ),
        decreases bytes.len() - pos,
    {
        let ghost before = parts;
        let end: usize = if bytes.len() - pos <= LINE_WIDTH {
            bytes.len()
        } else {
            pos + LINE_WIDTH
        };
        let mut chunk: Vec<u8> = Vec::new();
        let mut k: usize = pos;
        while k < end
            invariant
                pos <= k <= end <= bytes.len(),
                chunk@ == bytes@.subrange(pos as int, k as int),
            decreases end - k,
        {
            chunk.push(bytes[k]);
            assert(chunk@ =~= bytes@.subrange(pos as int, k + 1));
            k += 1;
        }
        let part = decode_lossy(&chunk);
        parts.push(part);
        proof {
            lemma_texts_push(before, parts, part);
            assert(parts.deep_view() + chunks_from(bytes@, LINE_WIDTH as int, end as int)
                =~= before.deep_view() + chunks_from(bytes@, LINE_WIDTH as int, pos as int));
        }
        pos = end;
    }
    assert(parts.deep_view() + chunks_from(bytes@, LINE_WIDTH as int, pos as int)
        =~= parts.deep_view());
    join_texts(&parts, "\n")
}

/// Appends to `out` what is written for a line that is no fence.
fn fit_line(out: &mut Vec<char>, line: &str, in_code: bool)
    ensures
        final(out)@ == old(out)@ + fitted(line@, in_code),
{
    let ghost start = out@;
    let n = line.len();
    if in_code && n > 2 * LINE_WIDTH {
        let cut = chunk_line(line);
        push_str(out, cut.as_str());
        push_str(out, "\n");
        assert(out@ =~= start + fitted(line@, in_code));
    } else if !in_code && n > LINE_WIDTH {
        let parts = split_words(line);
        let broken = wrap_words(&parts, LINE_WIDTH);
        let mut i: usize = 0;
        while i < broken.len()
            invariant
                i <= broken.len(),
                out@ == start + each_line_upto(broken.deep_view(), i as int),
            decreases broken.len() - i,
        {
            push_str(out, broken[i].as_str());
            push_str(out, "\n");
            assert(out@ =~= start + each_line_upto(broken.deep_view(), i + 1));
            i += 1;
        }
        assert(out@ =~= start + each_line_upto(broken.deep_view(), i as int));
    } else {
        push_str(out, line);
        push_str(out, "\n");
        assert(out@ =~= start + fitted(line@, in_code));
    }
}

/// Breaks the long lines of a document.
pub fn fix_long_lines(text: &str) -> (r: String)
    ensures
        r@ == with_short_lines(text@),
{
    let all = split_lines(text);
    let mut out: Vec<char> = Vec::new();
    let mut in_code = false;
    let mut n: usize = 0;
    while n < all.len()
        invariant
            n <= all.len(),
            out@ == read_code_upto(all.deep_view(), n as int).out,
            in_code == read_code_upto(all.deep_view(), n as int).in_code,
        decreases all.len() - n,
    {
        let ghost before = out@;
        let body = trim_text(all[n].as_str());
        if text_starts_with(body.as_str(), CODE_FENCE) {
            in_code = !in_code;
            push_str(&mut out, all[n].as_str());
            push_str(&mut out, "\n");
            assert(out@ =~= before + all.deep_view()[n as int] + "\n"@);
        } else {
            fit_line(&mut out, all[n].as_str(), in_code);
        }
        n += 1;
    }
    string_of(&out)
}

} // verus!
