//! Splits the text of a file into overlapping chunks of whole lines.
use crate::paths::{extension_of, file_extension};
use crate::text::{
    join_lines, line_feed, lines_of, lowercase_of, opt_view, split_lines, str_eq, str_views,
    to_lowercase, utf8_len,
};
use vstd::prelude::*;
use vstd::slice::slice_subrange;

verus! {

/// A run of consecutive lines of one file, with what is needed to show it
/// and to find out whether the file has changed since.
#[derive(Debug)]
pub struct Chunk {
    /// Key of the chunk within its index.
    pub id: u64,
    /// The lines, joined by line feeds.
    pub text: String,
    /// Path of the file, relative to the root of the index.
    pub file_path: String,
    /// Number of the first line, counted from 1.
    pub start_line: usize,
    /// Number of the last line.
    pub end_line: usize,
    /// Hash of the whole file, in hex.
    pub file_hash: String,
    /// Language of the file, where its extension tells.
    pub language: Option<String>,
}

/// What a chunk holds, as mathematical values.
pub struct ChunkView {
    pub id: int,
    pub text: Seq<char>,
    pub file_path: Seq<char>,
    pub start_line: int,
    pub end_line: int,
    pub file_hash: Seq<char>,
    pub language: Option<Seq<char>>,
}

impl View for Chunk {
    type V = ChunkView;

    open spec fn view(&self) -> ChunkView {
        ChunkView {
            id: self.id as int,
            text: self.text@,
            file_path: self.file_path@,
            start_line: self.start_line as int,
            end_line: self.end_line as int,
            file_hash: self.file_hash@,
            language: opt_view(self.language),
        }
    }
}

impl Clone for Chunk {
    fn clone(&self) -> (r: Chunk)
        ensures
            r@ == self@,
    {
        Chunk {
            id: self.id,
            text: self.text.clone(),
            file_path: self.file_path.clone(),
            start_line: self.start_line,
            end_line: self.end_line,
            file_hash: self.file_hash.clone(),
            language: clone_opt(&self.language),
        }
    }
}

/// A copy of an optional string.
pub fn clone_opt(s: &Option<String>) -> (r: Option<String>)
    ensures
        opt_view(r) == opt_view(*s),
{
    match s {
        Some(s) => Some(s.clone()),
        None => None,
    }
}

/// The views of a list of chunks.
pub open spec fn chunk_views(chunks: Seq<Chunk>) -> Seq<ChunkView> {
    Seq::new(chunks.len(), |i: int| chunks[i]@)
}

/// The language that a lower-case extension stands for.
pub open spec fn language_of_extension(ext: Seq<char>) -> Option<Seq<char>> {
    if ext == "rs"@ {
        Some("rust"@)
    } else if ext == "py"@ || ext == "pyi"@ || ext == "pyw"@ {
        Some("python"@)
    } else if ext == "js"@ || ext == "mjs"@ || ext == "cjs"@ {
        Some("javascript"@)
    } else if ext == "ts"@ || ext == "mts"@ || ext == "cts"@ {
        Some("typescript"@)
    } else if ext == "jsx"@ {
        Some("javascriptreact"@)
    } else if ext == "tsx"@ {
        Some("typescriptreact"@)
    } else if ext == "go"@ {
        Some("go"@)
    } else if ext == "java"@ {
        Some("java"@)
    } else if ext == "kt"@ || ext == "kts"@ {
        Some("kotlin"@)
    } else if ext == "c"@ || ext == "h"@ {
        Some("c"@)
    } else if ext == "cpp"@ || ext == "hpp"@ || ext == "cc"@ || ext == "cxx"@ || ext == "hxx"@ {
        Some("cpp"@)
    } else if ext == "cs"@ {
        Some("csharp"@)
    } else if ext == "rb"@ || ext == "rake"@ {
        Some("ruby"@)
    } else if ext == "php"@ {
        Some("php"@)
    } else if ext == "swift"@ {
        Some("swift"@)
    } else if ext == "scala"@ || ext == "sc"@ {
        Some("scala"@)
    } else if ext == "sh"@ || ext == "bash"@ || ext == "zsh"@ {
        Some("shell"@)
    } else if ext == "sql"@ {
        Some("sql"@)
    } else if ext == "html"@ || ext == "htm"@ {
        Some("html"@)
    } else if ext == "css"@ {
        Some("css"@)
    } else if ext == "scss"@ || ext == "sass"@ {
        Some("scss"@)
    } else if ext == "vue"@ {
        Some("vue"@)
    } else if ext == "svelte"@ {
        Some("svelte"@)
    } else if ext == "json"@ {
        Some("json"@)
    } else if ext == "yaml"@ || ext == "yml"@ {
        Some("yaml"@)
    } else if ext == "toml"@ {
        Some("toml"@)
    } else if ext == "md"@ || ext == "mdx"@ {
        Some("markdown"@)
    } else if ext == "tf"@ || ext == "hcl"@ {
        Some("terraform"@)
    } else if ext == "xml"@ {
        Some("xml"@)
    } else {
        None
    }
}

/// The language of a file: that of its extension in lower case, none where
/// the path has no extension or the extension is not known.
pub open spec fn language_of_path(path: Seq<char>) -> Option<Seq<char>> {
    match file_extension(path) {
        Some(ext) => language_of_extension(lowercase_of(ext)),
        None => None,
    }
}

fn named(language: &str) -> (r: Option<String>)
    ensures
        opt_view(r) == Some(language@),
{
    Some(language.to_owned())
}

/// The language that a lower-case extension stands for.
pub fn language_for_extension(ext: &str) -> (r: Option<String>)
    ensures
        opt_view(r) == language_of_extension(ext@),
{
    if str_eq(ext, "rs") {
        named("rust")
    } else if str_eq(ext, "py") || str_eq(ext, "pyi") || str_eq(ext, "pyw") {
        named("python")
    } else if str_eq(ext, "js") || str_eq(ext, "mjs") || str_eq(ext, "cjs") {
        named("javascript")
    } else if str_eq(ext, "ts") || str_eq(ext, "mts") || str_eq(ext, "cts") {
        named("typescript")
    } else if str_eq(ext, "jsx") {
        named("javascriptreact")
    } else if str_eq(ext, "tsx") {
        named("typescriptreact")
    } else if str_eq(ext, "go") {
        named("go")
    } else if str_eq(ext, "java") {
        named("java")
    } else if str_eq(ext, "kt") || str_eq(ext, "kts") {
        named("kotlin")
    } else if str_eq(ext, "c") || str_eq(ext, "h") {
        named("c")
    } else if str_eq(ext, "cpp") || str_eq(ext, "hpp") || str_eq(ext, "cc") || str_eq(ext, "cxx")
        || str_eq(ext, "hxx") {
        named("cpp")
    } else if str_eq(ext, "cs") {
        named("csharp")
    } else if str_eq(ext, "rb") || str_eq(ext, "rake") {
        named("ruby")
    } else if str_eq(ext, "php") {
        named("php")
    } else if str_eq(ext, "swift") {
        named("swift")
    } else if str_eq(ext, "scala") || str_eq(ext, "sc") {
        named("scala")
    } else if str_eq(ext, "sh") || str_eq(ext, "bash") || str_eq(ext, "zsh") {
        named("shell")
    } else if str_eq(ext, "sql") {
        named("sql")
    } else if str_eq(ext, "html") || str_eq(ext, "htm") {
        named("html")
    } else if str_eq(ext, "css") {
        named("css")
    } else if str_eq(ext, "scss") || str_eq(ext, "sass") {
        named("scss")
    } else if str_eq(ext, "vue") {
        named("vue")
    } else if str_eq(ext, "svelte") {
        named("svelte")
    } else if str_eq(ext, "json") {
        named("json")
    } else if str_eq(ext, "yaml") || str_eq(ext, "yml") {
        named("yaml")
    } else if str_eq(ext, "toml") {
        named("toml")
    } else if str_eq(ext, "md") || str_eq(ext, "mdx") {
        named("markdown")
    } else if str_eq(ext, "tf") || str_eq(ext, "hcl") {
        named("terraform")
    } else if str_eq(ext, "xml") {
        named("xml")
    } else {
        None
    }
}

/// The language of a file, told from the extension of its path.
pub fn detect_language(file_path: &str) -> (r: Option<String>)
    ensures
        opt_view(r) == language_of_path(file_path@),
{
    match extension_of(file_path) {
        Some(ext) => {
            let lower = to_lowercase(ext);
            language_for_extension(lower.as_str())
        },
        None => None,
    }
}

/// What a line adds to the size of a chunk: its bytes and one for the line
/// feed.
pub open spec fn line_cost(line: Seq<char>) -> nat {
    utf8_len(line) + 1
}

/// The size of a run of lines: the sum of their costs.
pub open spec fn lines_cost(lines: Seq<Seq<char>>) -> nat
    decreases lines.len(),
{
    if lines.len() == 0 {
        0
    } else {
        lines_cost(lines.drop_last()) + line_cost(lines.last())
    }
}

/// How many lines, taken from the end of `lines` backwards, fit together
/// into `budget`.
pub open spec fn tail_fit(lines: Seq<Seq<char>>, budget: nat) -> nat
    decreases lines.len(),
{
    if lines.len() == 0 || line_cost(lines.last()) > budget {
        0
    } else {
        1 + tail_fit(lines.drop_last(), (budget - line_cost(lines.last())) as nat)
    }
}

/// How many lines to carry over for an overlap: those that fit, and one
/// where none does.
pub open spec fn overlap_lines(lines: Seq<Seq<char>>, overlap: nat) -> nat {
    if tail_fit(lines, overlap) == 0 {
        1
    } else {
        tail_fit(lines, overlap)
    }
}

/// How many lines of a closed chunk open the next one.
pub open spec fn retained(buffer: Seq<Seq<char>>, overlap: nat) -> nat {
    if overlap_lines(buffer, overlap) <= buffer.len() {
        overlap_lines(buffer, overlap)
    } else {
        buffer.len()
    }
}

/// The chunks that are still to come when lines `lo..i` are pending and line
/// `i` is next: each as the range of lines it holds, first line and the line
/// after the last, both counted from 0.
///
/// A pending chunk is closed before a line that would take it beyond
/// `chunk_size`; its last lines, by `retained`, open the next chunk. What is
/// pending at the end of the text is the last chunk.
pub open spec fn spans_from(
    lines: Seq<Seq<char>>,
    chunk_size: nat,
    overlap: nat,
    lo: int,
    i: int,
) -> Seq<(int, int)>
    decreases lines.len() - i,
{
    if i >= lines.len() {
        if lo < i {
            seq![(lo, i)]
        } else {
            Seq::empty()
        }
    } else if lo < i && lines_cost(lines.subrange(lo, i)) + line_cost(lines[i]) > chunk_size {
        seq![(lo, i)] + spans_from(
            lines,
            chunk_size,
            overlap,
            i - retained(lines.subrange(lo, i), overlap),
            i + 1,
        )
    } else {
        spans_from(lines, chunk_size, overlap, lo, i + 1)
    }
}

/// The ranges of lines that the chunks of a text hold.
pub open spec fn chunk_spans(lines: Seq<Seq<char>>, chunk_size: nat, overlap: nat) -> Seq<
    (int, int),
> {
    spans_from(lines, chunk_size, overlap, 0, 0)
}

/// The number that chunk `k` reports for the line at place `line`, counted
/// from 0. The first chunk counts the lines of the file from 1; every later
/// chunk counts them from 2, and so reports its lines one higher.
pub open spec fn reported_line(k: int, line: int) -> int {
    if k == 0 {
        line + 1
    } else {
        line + 2
    }
}

/// The record of chunk `k` of a file.
pub open spec fn chunk_record(
    lines: Seq<Seq<char>>,
    spans: Seq<(int, int)>,
    k: int,
    file_path: Seq<char>,
    file_hash: Seq<char>,
    language: Option<Seq<char>>,
    start_id: int,
) -> ChunkView {
    ChunkView {
        id: start_id + k,
        text: join_lines(lines.subrange(spans[k].0, spans[k].1)),
        file_path,
        start_line: reported_line(k, spans[k].0),
        end_line: reported_line(k, spans[k].1 - 1),
        file_hash,
        language,
    }
}

/// The records of all chunks of a file, in the order of the text.
pub open spec fn chunk_records(
    text: Seq<char>,
    file_path: Seq<char>,
    file_hash: Seq<char>,
    start_id: int,
    chunk_size: nat,
    overlap: nat,
) -> Seq<ChunkView> {
    let lines = split_lines(text);
    let spans = chunk_spans(lines, chunk_size, overlap);
    Seq::new(
        spans.len(),
        |k: int|
            chunk_record(lines, spans, k, file_path, file_hash, language_of_path(file_path), start_id),
    )
}

/// Splits texts into chunks of whole lines that overlap.
#[derive(Debug, Clone, Copy)]
pub struct Chunker {
    chunk_size: usize,
    overlap: usize,
}

/// The widest value that the size of one line can take, plus one.
const LINE_SPAN: u128 = 0x1_0000_0000_0000_0000;

/// The size of a run of lines stays below one `LINE_SPAN` for each line.
proof fn lemma_lines_cost_bound(lines: Seq<Seq<char>>)
    requires
        forall|j: int| 0 <= j < lines.len() ==> utf8_len(#[trigger] lines[j]) < LINE_SPAN,
    ensures
        lines_cost(lines) <= lines.len() * LINE_SPAN,
    decreases lines.len(),
{
    if lines.len() > 0 {
        let front = lines.drop_last();
        assert forall|j: int| 0 <= j < front.len() implies utf8_len(#[trigger] front[j])
            < LINE_SPAN by {
            assert(front[j] == lines[j]);
        }
        lemma_lines_cost_bound(front);
        assert((lines.len() - 1) * LINE_SPAN + LINE_SPAN == lines.len() * LINE_SPAN)
            by (nonlinear_arith);
    }
}

/// The size of a run of lines.
fn cost_of(lines: &[&str]) -> (r: u128)
    ensures
        r == lines_cost(str_views(lines@)),
        forall|j: int| 0 <= j < lines@.len() ==> utf8_len(#[trigger] lines@[j]@) < LINE_SPAN,
{
    let ghost views = str_views(lines@);
    let n = lines.len();
    let mut sum: u128 = 0;
    let mut j: usize = 0;
    assert(views.subrange(0, 0) =~= Seq::<Seq<char>>::empty());
    while j < n
        invariant
            n == lines@.len(),
            views == str_views(lines@),
            j <= n,
            sum == lines_cost(views.subrange(0, j as int)),
            sum <= j * LINE_SPAN,
            forall|k: int| 0 <= k < j ==> utf8_len(#[trigger] lines@[k]@) < LINE_SPAN,
        decreases n - j,
    {
        let len = lines[j].as_bytes().len();
        proof {
            assert(views.subrange(0, j + 1).drop_last() =~= views.subrange(0, j as int));
            assert(views.subrange(0, j + 1).last() == lines@[j as int]@);
            assert((j + 1) * LINE_SPAN == j * LINE_SPAN + LINE_SPAN) by (nonlinear_arith);
            assert(n * LINE_SPAN <= 0xffff_ffff_ffff_ffff * LINE_SPAN) by (nonlinear_arith)
                requires
                    n <= 0xffff_ffff_ffff_ffff,
            ;
            assert(j * LINE_SPAN <= n * LINE_SPAN) by (nonlinear_arith)
                requires
                    j <= n,
            ;
        }
        sum = sum + len as u128 + 1;
        j += 1;
    }
    assert(views.subrange(0, n as int) =~= views);
    sum
}

/// Lines `lo..hi` joined by line feeds.
fn join_range(lines: &Vec<&str>, lo: usize, hi: usize) -> (r: String)
    requires
        lo <= hi <= lines@.len(),
    ensures
        r@ == join_lines(str_views(lines@).subrange(lo as int, hi as int)),
{
    let ghost views = str_views(lines@);
    let mut text = String::new();
    let mut j: usize = lo;
    proof {
        reveal_strlit("\n");
        assert("\n"@ =~= seq![line_feed()]);
        assert(views.subrange(lo as int, lo as int) =~= Seq::<Seq<char>>::empty());
    }
    while j < hi
        invariant
            views == str_views(lines@),
            lo <= j <= hi <= lines@.len(),
            text@ == join_lines(views.subrange(lo as int, j as int)),
            "\n"@ == seq![line_feed()],
        decreases hi - j,
    {
        proof {
            let w = views.subrange(lo as int, j + 1);
            assert(w.drop_last() =~= views.subrange(lo as int, j as int));
            assert(w.last() == lines@[j as int]@);
        }
        if j > lo {
            text.append("\n");
        }
        text.append(lines[j]);
        j += 1;
    }
    text
}

impl Chunker {
    /// The largest size that a chunk is filled to, in bytes.
    pub closed spec fn chunk_size(&self) -> nat {
        self.chunk_size as nat
    }

    /// The size that the lines shared by two chunks are held to, in bytes.
    pub closed spec fn overlap(&self) -> nat {
        self.overlap as nat
    }

    /// A chunker with the given sizes.
    pub fn new(chunk_size: usize, overlap: usize) -> (r: Chunker)
        ensures
            r.chunk_size() == chunk_size,
            r.overlap() == overlap,
    {
        Chunker { chunk_size, overlap }
    }

    /// The chunks of a file, by `chunk_records`.
    pub open spec fn spec_chunk_text(
        &self,
        text: Seq<char>,
        file_path: Seq<char>,
        file_hash: Seq<char>,
        start_id: int,
    ) -> Seq<ChunkView> {
        chunk_records(text, file_path, file_hash, start_id, self.chunk_size(), self.overlap())
    }

    /// Splits the text of a file into chunks of whole lines. The chunks come
    /// in the order of the text and get the ids `start_id`, `start_id + 1`
    /// and so on; a text without lines gives none. Each chunk holds the
    /// lines of its range joined by line feeds, and reports its first and
    /// last line by `reported_line`.
    ///
    /// The line numbers and the ids have to fit their types.
    pub fn chunk_text(&self, text: &str, file_path: &str, file_hash: &str, start_id: u64) -> (chunks:
        Vec<Chunk>)
        requires
            split_lines(text@).len() < usize::MAX,
            start_id + chunk_spans(split_lines(text@), self.chunk_size(), self.overlap()).len()
                <= u64::MAX + 1,
        ensures
            chunk_views(chunks@) == self.spec_chunk_text(
                text@,
                file_path@,
                file_hash@,
                start_id as int,
            ),
    {
        let language = detect_language(file_path);
        let lines = lines_of(text);
        let n = lines.len();
        let ghost all = str_views(lines@);
        let ghost spans = chunk_spans(all, self.chunk_size(), self.overlap());
        let ghost mut emitted: Seq<(int, int)> = Seq::empty();
        let mut chunks: Vec<Chunk> = Vec::new();
        let mut lo: usize = 0;
        let mut chunk_start_line: usize = 1;
        let mut current_size: u128 = 0;
        let mut i: usize = 0;
        proof {
            assert(emitted + spans_from(all, self.chunk_size(), self.overlap(), 0, 0) =~= spans);
            assert(all.subrange(0, 0) =~= Seq::<Seq<char>>::empty());
        }
        while i < n
            invariant
                n == lines@.len(),
                n < usize::MAX,
                all == str_views(lines@),
                spans == chunk_spans(all, self.chunk_size(), self.overlap()),
                start_id + spans.len() <= u64::MAX + 1,
                spans == emitted + spans_from(
                    all,
                    self.chunk_size(),
                    self.overlap(),
                    lo as int,
                    i as int,
                ),
                chunks@.len() == emitted.len(),
                forall|k: int|
                    0 <= k < chunks@.len() ==> (#[trigger] chunks@[k])@ == chunk_record(
                        all,
                        spans,
                        k,
                        file_path@,
                        file_hash@,
                        language_of_path(file_path@),
                        start_id as int,
                    ),
                opt_view(language) == language_of_path(file_path@),
                lo <= i <= n,
                i > 0 ==> lo < i,
                chunk_start_line == reported_line(chunks@.len() as int, lo as int),
                current_size == lines_cost(all.subrange(lo as int, i as int)),
                forall|j: int| 0 <= j < i ==> utf8_len(#[trigger] all[j]) < LINE_SPAN,
            decreases n - i,
        {
            let line_len: u128 = lines[i].as_bytes().len() as u128 + 1;
            proof {
                let buffer = all.subrange(lo as int, i as int);
                assert forall|j: int| 0 <= j < buffer.len() implies utf8_len(#[trigger] buffer[j])
                    < LINE_SPAN by {
                    assert(buffer[j] == all[lo + j]);
                }
                lemma_lines_cost_bound(buffer);
                assert((i - lo) * LINE_SPAN + LINE_SPAN <= 0xffff_ffff_ffff_ffff * LINE_SPAN)
                    by (nonlinear_arith)
                    requires
                        i - lo + 1 <= 0xffff_ffff_ffff_ffff,
                        LINE_SPAN > 0,
                ;
                assert(line_len == line_cost(all[i as int]));
            }
            if lo < i && current_size + line_len > self.chunk_size as u128 {
                let ghost k = chunks@.len() as int;
                proof {
                    assert(spans =~= emitted + seq![(lo as int, i as int)] + spans_from(
                        all,
                        self.chunk_size(),
                        self.overlap(),
                        i - retained(all.subrange(lo as int, i as int), self.overlap()),
                        i + 1,
                    ));
                    assert(spans[k] == (lo as int, i as int));
                }
                let chunk = Chunk {
                    id: start_id + chunks.len() as u64,
                    text: join_range(&lines, lo, i),
                    file_path: file_path.to_owned(),
                    start_line: chunk_start_line,
                    end_line: chunk_start_line + (i - lo - 1),
                    file_hash: file_hash.to_owned(),
                    language: clone_opt(&language),
                };
                chunks.push(chunk);
                let buffer = slice_subrange(lines.as_slice(), lo, i);
                assert(str_views(buffer@) =~= all.subrange(lo as int, i as int));
                let overlap_lines = self.calculate_overlap_lines(buffer);
                let keep_count = if overlap_lines <= i - lo {
                    overlap_lines
                } else {
                    i - lo
                };
                let kept = slice_subrange(lines.as_slice(), i - keep_count, i);
                assert(str_views(kept@) =~= all.subrange(i - keep_count, i as int));
                current_size = cost_of(kept);
                chunk_start_line = i + 1 - keep_count + 1;
                proof {
                    emitted = emitted + seq![(lo as int, i as int)];
                }
                lo = i - keep_count;
            }
            proof {
                let w = all.subrange(lo as int, i + 1);
                assert(w.drop_last() =~= all.subrange(lo as int, i as int));
                assert(w.last() == all[i as int]);
                let buffer = all.subrange(lo as int, i as int);
                assert forall|j: int| 0 <= j < buffer.len() implies utf8_len(#[trigger] buffer[j])
                    < LINE_SPAN by {
                    assert(buffer[j] == all[lo + j]);
                }
                lemma_lines_cost_bound(buffer);
                assert((i - lo) * LINE_SPAN + LINE_SPAN <= 0xffff_ffff_ffff_ffff * LINE_SPAN)
                    by (nonlinear_arith)
                    requires
                        i - lo + 1 <= 0xffff_ffff_ffff_ffff,
                        LINE_SPAN > 0,
                ;
            }
            current_size = current_size + line_len;
            i += 1;
        }
        if lo < n {
            let ghost k = chunks@.len() as int;
            proof {
                assert(spans =~= emitted + seq![(lo as int, n as int)]);
                assert(spans[k] == (lo as int, n as int));
            }
            let chunk = Chunk {
                id: start_id + chunks.len() as u64,
                text: join_range(&lines, lo, n),
                file_path: file_path.to_owned(),
                start_line: chunk_start_line,
                end_line: chunk_start_line + (n - lo - 1),
                file_hash: file_hash.to_owned(),
                language: clone_opt(&language),
            };
            chunks.push(chunk);
        } else {
            assert(spans =~= emitted);
        }
        proof {
            assert(chunk_views(chunks@) =~= self.spec_chunk_text(
                text@,
                file_path@,
                file_hash@,
                start_id as int,
            ));
        }
        chunks
    }

    /// Whether the line numbers and the ids of the chunks of a text are sure
    /// to fit their types: whether the text has fewer bytes than the largest
    /// line number and no more than there are ids from `start_id` on.
    pub open spec fn fits(text: Seq<char>, start_id: u64) -> bool {
        utf8_len(text) < usize::MAX && start_id + utf8_len(text) <= u64::MAX
    }

    /// The chunks of a file as `chunk_text` gives them, where the line
    /// numbers and the ids are sure to fit their types; nothing where they
    /// are not.
    pub fn try_chunk_text(&self, text: &str, file_path: &str, file_hash: &str, start_id: u64) -> (r:
        Option<Vec<Chunk>>)
        ensures
            match r {
                Some(chunks) => Chunker::fits(text@, start_id) && chunk_views(chunks@)
                    == self.spec_chunk_text(text@, file_path@, file_hash@, start_id as int),
                None => !Chunker::fits(text@, start_id),
            },
    {
        let bytes = text.as_bytes().len();
        if bytes < usize::MAX && bytes as u64 <= u64::MAX - start_id {
            proof {
                crate::chunker_proofs::lemma_chunk_count(
                    text@,
                    self.chunk_size(),
                    self.overlap(),
                );
            }
            Some(self.chunk_text(text, file_path, file_hash, start_id))
        } else {
            None
        }
    }

    /// How many of the last lines of a closed chunk to carry over.
    pub fn calculate_overlap_lines(&self, lines: &[&str]) -> (r: usize)
        ensures
            r == overlap_lines(str_views(lines@), self.overlap()),
    {
        let ghost views = str_views(lines@);
        let mut left: usize = self.overlap;
        let mut count: usize = 0;
        let mut at: usize = lines.len();
        let mut full = false;
        assert(views.subrange(0, at as int) =~= views);
        while at > 0 && !full
            invariant
                views == str_views(lines@),
                at <= lines@.len(),
                count + at == lines@.len(),
                tail_fit(views, self.overlap as nat) == count + tail_fit(
                    views.subrange(0, at as int),
                    left as nat,
                ),
                full ==> tail_fit(views.subrange(0, at as int), left as nat) == 0,
            decreases at + if full { 0int } else { 1int },
        {
            let len = lines[at - 1].as_bytes().len();
            proof {
                let w = views.subrange(0, at as int);
                assert(w.last() == lines@[at - 1]@);
                assert(w.drop_last() =~= views.subrange(0, at - 1));
            }
            if len >= left {
                full = true;
            } else {
                left = left - len - 1;
                count += 1;
                at -= 1;
            }
        }
        if count == 0 {
            1
        } else {
            count
        }
    }
}

} // verus!
