//! Search results as text for a terminal: what is written, piece by piece,
//! and in which style each piece is shown.
use crate::chunker::{Chunk, ChunkView};
use crate::error::concat;
use crate::filter::string_views;
use crate::ranking::{result_views, ResultView, SearchResult};
use crate::text::{decimal, lines_of, split_lines, str_views, to_decimal};
use colored::Colorize;
use vstd::prelude::*;

verus! {

/// How many lines of a chunk are shown.
pub const PREVIEW_LINES: usize = 15;

/// How wide the rule above the lines of a chunk is.
pub const RULE_WIDTH: usize = 60;

/// How wide the column of the line numbers is.
pub const NUMBER_WIDTH: usize = 4;

/// The colour that a score is shown in.
#[derive(Debug, Clone, Copy, PartialEq, Eq, Structural)]
pub enum ScoreColor {
    /// For 80 percent and more.
    Green,
    /// For 60 percent and more.
    Yellow,
    /// For less.
    Red,
}

/// How a piece of text is shown.
#[derive(Debug, Clone, Copy, PartialEq, Eq, Structural)]
pub enum Style {
    /// As it is.
    Plain,
    /// Dimmed: for places in the list, line numbers and rules.
    Dimmed,
    /// Cyan and bold: for the place of a chunk.
    Place,
    /// In the colour of a score.
    Score(ScoreColor),
}

/// A piece of text and how it is shown.
#[derive(Debug)]
pub struct Piece {
    /// The text.
    pub text: String,
    /// How the text is shown.
    pub style: Style,
}

/// What a piece holds, as mathematical values.
pub struct PieceView {
    pub text: Seq<char>,
    pub style: Style,
}

impl View for Piece {
    type V = PieceView;

    open spec fn view(&self) -> PieceView {
        PieceView { text: self.text@, style: self.style }
    }
}

/// The views of a list of pieces.
pub open spec fn piece_views(pieces: Seq<Piece>) -> Seq<PieceView> {
    Seq::new(pieces.len(), |i: int| pieces[i]@)
}

/// A piece that is shown as it is.
pub open spec fn plain(text: Seq<char>) -> PieceView {
    PieceView { text, style: Style::Plain }
}

/// A piece that is shown dimmed.
pub open spec fn dimmed(text: Seq<char>) -> PieceView {
    PieceView { text, style: Style::Dimmed }
}

/// A score in whole percent, rounded down; nothing for a score below zero.
pub open spec fn percent_of(score: int) -> int {
    if score <= 0 {
        0
    } else if score / 10000 > u32::MAX {
        u32::MAX as int
    } else {
        score / 10000
    }
}

/// The colour for a percentage.
pub open spec fn color_of(percent: int) -> ScoreColor {
    if percent >= 80 {
        ScoreColor::Green
    } else if percent >= 60 {
        ScoreColor::Yellow
    } else {
        ScoreColor::Red
    }
}

/// A score in whole percent.
pub fn score_percent(score: i64) -> (r: u32)
    ensures
        r == percent_of(score as int),
{
    if score <= 0 {
        0
    } else {
        let percent = score / 10000;
        if percent > 4294967295 {
            4294967295
        } else {
            percent as u32
        }
    }
}

/// The colour for a percentage.
pub fn score_color(percent: u32) -> (r: ScoreColor)
    ensures
        r == color_of(percent as int),
{
    if percent >= 80 {
        ScoreColor::Green
    } else if percent >= 60 {
        ScoreColor::Yellow
    } else {
        ScoreColor::Red
    }
}

/// Where a chunk stands: its file, and its line or its first and last line.
pub open spec fn location_of(chunk: ChunkView) -> Seq<char> {
    if chunk.start_line == chunk.end_line {
        chunk.file_path + ":"@ + decimal(chunk.start_line as nat)
    } else {
        chunk.file_path + ":"@ + decimal(chunk.start_line as nat) + "-"@ + decimal(
            chunk.end_line as nat,
        )
    }
}

/// Where a chunk stands.
pub fn location(chunk: &Chunk) -> (r: String)
    ensures
        r@ == location_of(chunk@),
{
    let mut text = concat(chunk.file_path.as_str(), ":");
    text.append(to_decimal(chunk.start_line as u128).as_str());
    if chunk.start_line != chunk.end_line {
        text.append("-");
        text.append(to_decimal(chunk.end_line as u128).as_str());
    }
    text
}

/// As many blanks.
pub open spec fn blanks(count: nat) -> Seq<char> {
    Seq::new(count, |i: int| ' ')
}

/// A text moved to the right end of a column: blanks come before it until
/// it is `width` wide.
pub open spec fn padded(text: Seq<char>, width: nat) -> Seq<char> {
    if text.len() >= width {
        text
    } else {
        blanks((width - text.len()) as nat) + text
    }
}

/// A text moved to the right end of a column.
pub fn pad_left(text: &str, width: usize) -> (r: String)
    ensures
        r@ == padded(text@, width as nat),
{
    let n = text.unicode_len();
    let mut out = String::new();
    let mut k: usize = n;
    proof {
        reveal_strlit(" ");
        assert(out@ =~= blanks(0));
    }
    while k < width
        invariant
            n <= k,
            n == text@.len(),
            n < width ==> k <= width,
            n >= width ==> k == n,
            " "@ == seq![' '],
            out@ == blanks((k - n) as nat),
        decreases width - k,
    {
        out.append(" ");
        k += 1;
        assert(out@ =~= blanks((k - n) as nat));
    }
    let ghost lead = out@;
    out.append(text);
    proof {
        if n >= width {
            assert(lead =~= Seq::<char>::empty());
            assert(out@ =~= text@);
        } else {
            assert(out@ =~= blanks((width - n) as nat) + text@);
        }
    }
    out
}

/// The rule above the lines of a chunk.
pub open spec fn rule(width: nat) -> Seq<char>
    decreases width,
{
    if width == 0 {
        Seq::empty()
    } else {
        rule((width - 1) as nat) + "\u{2500}"@
    }
}

/// The rule above the lines of a chunk.
pub fn rule_line(width: usize) -> (r: String)
    ensures
        r@ == rule(width as nat),
{
    let mut text = String::new();
    let mut k: usize = 0;
    while k < width
        invariant
            k <= width,
            text@ == rule(k as nat),
        decreases width - k,
    {
        text.append("\u{2500}");
        k += 1;
    }
    text
}

/// The head of a result: its place in the list, where its chunk stands, and
/// its score in percent, in the colour of the score.
pub open spec fn header_of(position: nat, result: ResultView) -> Seq<PieceView> {
    seq![
        plain("\n"@),
        dimmed("["@ + decimal(position) + "]"@),
        plain(" "@),
        PieceView { text: location_of(result.chunk), style: Style::Place },
        plain(" ("@),
        PieceView {
            text: decimal(percent_of(result.score) as nat),
            style: Style::Score(color_of(percent_of(result.score))),
        },
        plain("%)\n"@),
    ]
}

/// The first `upto` lines of a chunk, each behind its number.
pub open spec fn numbered(lines: Seq<Seq<char>>, start_line: int, upto: int) -> Seq<PieceView>
    decreases upto,
{
    if upto <= 0 {
        Seq::empty()
    } else {
        numbered(lines, start_line, upto - 1) + seq![
            dimmed(padded(decimal((start_line + upto - 1) as nat), NUMBER_WIDTH as nat)),
            plain(" "@ + lines[upto - 1] + "\n"@),
        ]
    }
}

/// The lines of a chunk as they are shown: a rule, the first lines with
/// their numbers, and how many more there are.
pub open spec fn preview_of(chunk: ChunkView) -> Seq<PieceView> {
    let lines = split_lines(chunk.text);
    let top = seq![dimmed(rule(RULE_WIDTH as nat)), plain("\n"@)];
    if lines.len() > PREVIEW_LINES {
        top + numbered(lines, chunk.start_line, PREVIEW_LINES as int) + seq![
            dimmed("     ... ("@ + decimal((lines.len() - PREVIEW_LINES) as nat) + " more lines)"@),
            plain("\n"@),
        ]
    } else {
        top + numbered(lines, chunk.start_line, lines.len() as int)
    }
}

/// One result as it is shown.
pub open spec fn block_of(position: nat, result: ResultView, show_content: bool) -> Seq<PieceView> {
    if show_content {
        header_of(position, result) + preview_of(result.chunk)
    } else {
        header_of(position, result)
    }
}

/// The first `upto` results as they are shown, one after the other and
/// counted from 1.
pub open spec fn layout_of(results: Seq<ResultView>, show_content: bool, upto: int) -> Seq<
    PieceView,
>
    decreases upto,
{
    if upto <= 0 {
        Seq::empty()
    } else {
        layout_of(results, show_content, upto - 1) + block_of(
            upto as nat,
            results[upto - 1],
            show_content,
        )
    }
}

/// The texts one after the other.
pub open spec fn joined_texts(texts: Seq<Seq<char>>) -> Seq<char>
    decreases texts.len(),
{
    if texts.len() == 0 {
        Seq::empty()
    } else {
        joined_texts(texts.drop_last()) + texts.last()
    }
}

/// The texts of a list of pieces.
pub open spec fn texts_of(pieces: Seq<PieceView>) -> Seq<Seq<char>> {
    Seq::new(pieces.len(), |i: int| pieces[i].text)
}

/// Whether `painted` can be what the pieces look like on a terminal: there
/// is a text for each piece, and plain pieces are left as they are.
pub open spec fn painted_from(pieces: Seq<PieceView>, painted: Seq<Seq<char>>) -> bool {
    &&& painted.len() == pieces.len()
    &&& forall|i: int|
        0 <= i < pieces.len() && (#[trigger] pieces[i]).style == Style::Plain ==> painted[i]
            == pieces[i].text
}

/// Whether `text` can be what the results look like on a terminal: the
/// pieces of their layout, each shown in its style, one after the other.
pub open spec fn shows(results: Seq<ResultView>, show_content: bool, text: Seq<char>) -> bool {
    exists|painted: Seq<Seq<char>>| #[trigger]
        painted_from(layout_of(results, show_content, results.len() as int), painted) && text
            == joined_texts(painted)
}

fn piece(text: String, style: Style) -> (r: Piece)
    ensures
        r@ == (PieceView { text: text@, style }),
{
    Piece { text, style }
}

/// The head of a result.
pub fn header(position: usize, result: &SearchResult) -> (r: Vec<Piece>)
    ensures
        piece_views(r@) == header_of(position as nat, result@),
{
    let percent = score_percent(result.score);
    let mut place = concat("[", to_decimal(position as u128).as_str());
    place.append("]");
    let mut pieces: Vec<Piece> = Vec::new();
    pieces.push(piece("\n".to_owned(), Style::Plain));
    pieces.push(piece(place, Style::Dimmed));
    pieces.push(piece(" ".to_owned(), Style::Plain));
    pieces.push(piece(location(&result.chunk), Style::Place));
    pieces.push(piece(" (".to_owned(), Style::Plain));
    pieces.push(piece(to_decimal(percent as u128), Style::Score(score_color(percent))));
    pieces.push(piece("%)\n".to_owned(), Style::Plain));
    assert(piece_views(pieces@) =~= header_of(position as nat, result@));
    pieces
}

/// The lines of a chunk as they are shown.
pub fn preview(chunk: &Chunk) -> (r: Vec<Piece>)
    ensures
        piece_views(r@) == preview_of(chunk@),
{
    let lines = lines_of(chunk.text.as_str());
    let ghost views = str_views(lines@);
    let shown = if lines.len() > PREVIEW_LINES {
        PREVIEW_LINES
    } else {
        lines.len()
    };
    let mut pieces: Vec<Piece> = Vec::new();
    pieces.push(piece(rule_line(RULE_WIDTH), Style::Dimmed));
    pieces.push(piece("\n".to_owned(), Style::Plain));
    let ghost top = piece_views(pieces@);
    let mut j: usize = 0;
    assert(piece_views(pieces@) =~= top + numbered(views, chunk.start_line as int, 0));
    while j < shown
        invariant
            shown <= lines@.len(),
            views == str_views(lines@),
            j <= shown,
            piece_views(pieces@) == top + numbered(views, chunk.start_line as int, j as int),
        decreases shown - j,
    {
        let ghost before = piece_views(pieces@);
        let number = to_decimal(chunk.start_line as u128 + j as u128);
        let mut line = concat(" ", lines[j]);
        line.append("\n");
        let label = piece(pad_left(number.as_str(), NUMBER_WIDTH), Style::Dimmed);
        let content = piece(line, Style::Plain);
        let ghost added = seq![label@, content@];
        pieces.push(label);
        pieces.push(content);
        proof {
            assert(views[j as int] == lines@[j as int]@);
            assert(piece_views(pieces@) =~= before + added);
            assert(numbered(views, chunk.start_line as int, j + 1) =~= numbered(
                views,
                chunk.start_line as int,
                j as int,
            ) + added);
        }
        j += 1;
    }
    if lines.len() > PREVIEW_LINES {
        let ghost before = piece_views(pieces@);
        let mut more = concat(
            "     ... (",
            to_decimal((lines.len() - PREVIEW_LINES) as u128).as_str(),
        );
        more.append(" more lines)");
        let note = piece(more, Style::Dimmed);
        let end = piece("\n".to_owned(), Style::Plain);
        let ghost added = seq![note@, end@];
        pieces.push(note);
        pieces.push(end);
        assert(piece_views(pieces@) =~= before + added);
    }
    assert(piece_views(pieces@) =~= preview_of(chunk@));
    pieces
}

/// The results as they are shown, piece by piece: for each its place in the
/// list, where its chunk stands and its score in percent, and with
/// `show_content` the first lines of the chunk behind their numbers.
pub fn layout(results: &Vec<SearchResult>, show_content: bool) -> (r: Vec<Piece>)
    ensures
        piece_views(r@) == layout_of(result_views(results@), show_content, results@.len() as int),
{
    let ghost views = result_views(results@);
    let mut pieces: Vec<Piece> = Vec::new();
    let mut i: usize = 0;
    assert(piece_views(pieces@) =~= layout_of(views, show_content, 0));
    while i < results.len()
        invariant
            views == result_views(results@),
            i <= results@.len(),
            piece_views(pieces@) == layout_of(views, show_content, i as int),
        decreases results@.len() - i,
    {
        let ghost before = piece_views(pieces@);
        let mut head = header(i + 1, &results[i]);
        let ghost head_views = piece_views(head@);
        pieces.append(&mut head);
        assert(piece_views(pieces@) =~= before + head_views);
        if show_content {
            let mut lines = preview(&results[i].chunk);
            let ghost line_views = piece_views(lines@);
            pieces.append(&mut lines);
            assert(piece_views(pieces@) =~= before + head_views + line_views);
        }
        assert(piece_views(pieces@) =~= before + block_of((i + 1) as nat, views[i as int], show_content));
        i += 1;
    }
    pieces
}

/// `Colorize::dimmed` of the crate colored, written out. What comes back
/// depends on the terminal and on the environment, so nothing is claimed of
/// it.
#[verifier::external_body]
fn paint_dimmed(text: &str) -> (r: String) {
    text.dimmed().to_string()
}

/// `Colorize::cyan` and `Colorize::bold` of the crate colored, written out.
/// Nothing is claimed of what comes back.
#[verifier::external_body]
fn paint_place(text: &str) -> (r: String) {
    text.cyan().bold().to_string()
}

/// `Colorize::green` of the crate colored, written out. Nothing is claimed
/// of what comes back.
#[verifier::external_body]
fn paint_green(text: &str) -> (r: String) {
    text.green().to_string()
}

/// `Colorize::yellow` of the crate colored, written out. Nothing is claimed
/// of what comes back.
#[verifier::external_body]
fn paint_yellow(text: &str) -> (r: String) {
    text.yellow().to_string()
}

/// `Colorize::red` of the crate colored, written out. Nothing is claimed of
/// what comes back.
#[verifier::external_body]
fn paint_red(text: &str) -> (r: String) {
    text.red().to_string()
}

/// A piece as it looks on a terminal: a plain piece as it is.
pub fn paint(piece: &Piece) -> (r: String)
    ensures
        piece.style == Style::Plain ==> r@ == piece.text@,
{
    match piece.style {
        Style::Plain => piece.text.clone(),
        Style::Dimmed => paint_dimmed(piece.text.as_str()),
        Style::Place => paint_place(piece.text.as_str()),
        Style::Score(ScoreColor::Green) => paint_green(piece.text.as_str()),
        Style::Score(ScoreColor::Yellow) => paint_yellow(piece.text.as_str()),
        Style::Score(ScoreColor::Red) => paint_red(piece.text.as_str()),
    }
}

/// The texts one after the other.
pub fn join_texts(texts: &Vec<String>) -> (r: String)
    ensures
        r@ == joined_texts(string_views(texts@)),
{
    let ghost views = string_views(texts@);
    let mut out = String::new();
    let mut i: usize = 0;
    assert(views.subrange(0, 0) =~= Seq::<Seq<char>>::empty());
    while i < texts.len()
        invariant
            views == string_views(texts@),
            i <= texts@.len(),
            out@ == joined_texts(views.subrange(0, i as int)),
        decreases texts@.len() - i,
    {
        proof {
            let next = views.subrange(0, i + 1);
            assert(next.drop_last() =~= views.subrange(0, i as int));
            assert(next.last() == views[i as int]);
        }
        out.append(texts[i].as_str());
        i += 1;
    }
    assert(views.subrange(0, texts@.len() as int) =~= views);
    out
}

/// The results as plain text: the pieces of their layout one after the
/// other.
pub fn format_plain(results: &Vec<SearchResult>, show_content: bool) -> (r: String)
    ensures
        r@ == joined_texts(
            texts_of(layout_of(result_views(results@), show_content, results@.len() as int)),
        ),
{
    let pieces = layout(results, show_content);
    let mut texts: Vec<String> = Vec::new();
    let mut i: usize = 0;
    while i < pieces.len()
        invariant
            i <= pieces@.len(),
            texts@.len() == i,
            forall|k: int| 0 <= k < i ==> (#[trigger] texts@[k])@ == pieces@[k]@.text,
        decreases pieces@.len() - i,
    {
        texts.push(pieces[i].text.clone());
        i += 1;
    }
    assert(string_views(texts@) =~= texts_of(piece_views(pieces@)));
    join_texts(&texts)
}

/// The results as text for a terminal: the pieces of their layout, each
/// shown in its style, one after the other.
pub fn format_results(results: &Vec<SearchResult>, show_content: bool) -> (r: String)
    ensures
        shows(result_views(results@), show_content, r@),
{
    let pieces = layout(results, show_content);
    let mut texts: Vec<String> = Vec::new();
    let mut i: usize = 0;
    while i < pieces.len()
        invariant
            i <= pieces@.len(),
            texts@.len() == i,
            forall|k: int|
                0 <= k < i && (#[trigger] pieces@[k])@.style == Style::Plain ==> texts@[k]@
                    == pieces@[k]@.text,
        decreases pieces@.len() - i,
    {
        texts.push(paint(&pieces[i]));
        i += 1;
    }
    let text = join_texts(&texts);
    proof {
        let painted = string_views(texts@);
        let shown = piece_views(pieces@);
        assert forall|k: int|
            0 <= k < shown.len() && (#[trigger] shown[k]).style == Style::Plain implies painted[k]
            == shown[k].text by {
            assert(pieces@[k]@.style == Style::Plain);
        }
        let views = result_views(results@);
        assert(shown == layout_of(views, show_content, views.len() as int));
        assert(painted_from(layout_of(views, show_content, views.len() as int), painted));
        assert(text@ == joined_texts(painted));
    }
    text
}

} // verus!
