//! Source files: which formats need converting, content hashes, streaming
//! of text lines in batches, and book metadata.

use vstd::prelude::*;
use vstd::string::*;
use vstd::utf8::encode_utf8;
use crate::brain::{opt_view, BookMetadata, BookMetadataView};
use crate::nlp::newline_pieces;
use crate::text::{
    all_whitespace, chars_of, contains_string, decimal, is_whitespace, join, join_strings, lowercase,
    spec_is_whitespace, starts_with, str_eq, str_starts_with, str_utf8_len_at_least, string_of_range,
    to_lowercase, to_string, trim, trim_str, u64_to_decimal, utf8_len, views,
};

verus! {

// ---------------------------------------------------------------------------
// Trusted calls into std and sha2
// ---------------------------------------------------------------------------

/// What `Path::extension` gives for a path: the part of its file name after
/// the last dot (none without a file name, without a dot, or for a name
/// that only starts with a dot).
pub uninterp spec fn path_extension(path: Seq<char>) -> Option<Seq<char>>;

/// `Path::new(path).extension()`, as a string.
#[verifier::external_body]
fn extension_of(path: &str) -> (r: Option<String>)
    ensures
        opt_view(r) == path_extension(path@),
{
    match std::path::Path::new(path).extension() {
        Some(e) => Some(e.to_string_lossy().into_owned()),
        None => None,
    }
}

/// What `Path::file_stem` gives for a path: its file name without the
/// extension.
pub uninterp spec fn path_stem(path: Seq<char>) -> Option<Seq<char>>;

/// `Path::new(path).file_stem()`, as a string.
#[verifier::external_body]
fn stem_of(path: &str) -> (r: Option<String>)
    ensures
        opt_view(r) == path_stem(path@),
{
    match std::path::Path::new(path).file_stem() {
        Some(e) => Some(e.to_string_lossy().into_owned()),
        None => None,
    }
}

/// The SHA-256 digest of a byte string.
pub uninterp spec fn sha256_digest(bytes: Seq<u8>) -> Seq<u8>;

/// `Sha256::digest(bytes)`: the digest named `sha256_digest`, 32 bytes long.
#[verifier::external_body]
fn sha256_of(bytes: &[u8]) -> (r: Vec<u8>)
    ensures
        r@ == sha256_digest(bytes@),
        r@.len() == 32,
{
    <sha2::Sha256 as sha2::Digest>::digest(bytes).to_vec()
}

// ---------------------------------------------------------------------------
// Formats
// ---------------------------------------------------------------------------

/// The ebook formats, by lowercase extension.
pub open spec fn ebook_formats() -> Seq<Seq<char>> {
    seq!["epub"@, "mobi"@, "azw3"@, "azw"@]
}

/// Whether a path names an ebook: its extension, lowercased, is an ebook
/// format.
pub open spec fn ebook_path(path: Seq<char>) -> bool {
    match path_extension(path) {
        Some(e) => ebook_formats().contains(lowercase(e)),
        None => false,
    }
}

/// Whether a path names a PDF: its extension, lowercased, is "pdf".
pub open spec fn pdf_path(path: Seq<char>) -> bool {
    match path_extension(path) {
        Some(e) => lowercase(e) == "pdf"@,
        None => false,
    }
}

/// Whether `path` names an ebook (see `ebook_path`).
pub fn is_ebook_format(path: &str) -> (r: bool)
    ensures
        r == ebook_path(path@),
{
    match extension_of(path) {
        Some(e) => {
            let l = to_lowercase(e.as_str());
            let formats: Vec<&str> = vec!["epub", "mobi", "azw3", "azw"];
            assert(formats@.map_values(|f: &str| f@) =~= ebook_formats());
            let mut i: usize = 0;
            while i < formats.len()
                invariant
                    i <= formats@.len(),
                    path_extension(path@) == Some(e@),
                    l@ == lowercase(e@),
                    formats@.map_values(|f: &str| f@) == ebook_formats(),
                    forall|k: int| 0 <= k < i ==> ebook_formats()[k] != l@,
                decreases formats@.len() - i,
            {
                assert(ebook_formats()[i as int] == formats@[i as int]@);
                if str_eq(formats[i], l.as_str()) {
                    assert(ebook_formats()[i as int] == l@);
                    assert(path_extension(path@) == Some(e@));
                    assert(ebook_formats().contains(lowercase(e@)));
                    return true;
                }
                i = i + 1;
            }
            false
        },
        None => false,
    }
}

/// Whether `path` names a PDF (see `pdf_path`).
pub fn is_pdf_format(path: &str) -> (r: bool)
    ensures
        r == pdf_path(path@),
{
    match extension_of(path) {
        Some(e) => {
            let l = to_lowercase(e.as_str());
            str_eq(l.as_str(), "pdf")
        },
        None => false,
    }
}

/// The format of a path: its lowercase extension, or "unknown".
pub open spec fn file_format(path: Seq<char>) -> Seq<char> {
    match path_extension(path) {
        Some(e) => lowercase(e),
        None => "unknown"@,
    }
}

/// The format of `path` (see `file_format`).
pub fn get_file_format(path: &str) -> (r: String)
    ensures
        r@ == file_format(path@),
{
    match extension_of(path) {
        Some(e) => to_lowercase(e.as_str()),
        None => to_string("unknown"),
    }
}

/// How a file is turned into text.
#[derive(Debug, Clone, Copy, PartialEq, Eq, Structural)]
pub enum Conversion {
    /// Converted with Calibre.
    Ebook,
    /// Converted with pdftotext.
    Pdf,
    /// Read as it is.
    Plain,
}

/// The conversion a path needs: ebooks first, then PDFs.
pub open spec fn conversion_for(path: Seq<char>) -> Conversion {
    if ebook_path(path) {
        Conversion::Ebook
    } else if pdf_path(path) {
        Conversion::Pdf
    } else {
        Conversion::Plain
    }
}

/// The conversion `path` needs (see `conversion_for`).
pub fn conversion_kind(path: &str) -> (r: Conversion)
    ensures
        r == conversion_for(path@),
{
    if is_ebook_format(path) {
        Conversion::Ebook
    } else if is_pdf_format(path) {
        Conversion::Pdf
    } else {
        Conversion::Plain
    }
}

/// The name of the temporary text file a conversion writes: the source's
/// file stem (or `fallback`), an underscore, the time in milliseconds, and
/// ".txt".
pub open spec fn temp_text_name(path: Seq<char>, fallback: Seq<char>, millis: u64) -> Seq<char> {
    (match path_stem(path) {
        Some(s) => s,
        None => fallback,
    }) + "_"@ + decimal(millis as nat) + ".txt"@
}

/// The name of the temporary text file for converting `path` (see
/// `temp_text_name`).
pub fn temp_text_file_name(path: &str, fallback: &str, millis: u64) -> (r: String)
    ensures
        r@ == temp_text_name(path@, fallback@, millis),
{
    let mut r = match stem_of(path) {
        Some(s) => s,
        None => to_string(fallback),
    };
    r.append("_");
    let d = u64_to_decimal(millis);
    r.append(d.as_str());
    r.append(".txt");
    r
}

/// The number of characters of `s` that are not whitespace.
pub open spec fn non_whitespace_count(s: Seq<char>) -> nat
    decreases s.len(),
{
    if s.len() == 0 {
        0
    } else {
        non_whitespace_count(s.drop_last()) + if spec_is_whitespace(s.last()) { 0nat } else { 1nat }
    }
}

/// Whether text extracted from a PDF shows it is text-based rather than
/// scanned: more than 100 characters that are not whitespace.
pub fn is_text_based(text: &str) -> (r: bool)
    ensures
        r == (non_whitespace_count(text@) > 100),
{
    let v = chars_of(text);
    let mut n: usize = 0;
    let mut i: usize = 0;
    while i < v.len()
        invariant
            i <= v.len(),
            n == non_whitespace_count(v@.take(i as int)),
            n <= i,
        decreases v.len() - i,
    {
        assert(v@.take(i as int + 1).drop_last() =~= v@.take(i as int));
        if !is_whitespace(v[i]) {
            n = n + 1;
        }
        i = i + 1;
    }
    assert(v@.take(i as int) =~= v@);
    n > 100
}

// ---------------------------------------------------------------------------
// Hashes
// ---------------------------------------------------------------------------

/// The lowercase hexadecimal digits.
pub open spec fn hex_digits() -> Seq<char> {
    seq!['0', '1', '2', '3', '4', '5', '6', '7', '8', '9', 'a', 'b', 'c', 'd', 'e', 'f']
}

/// Bytes in lowercase hexadecimal, two digits each (`{:x}`).
pub open spec fn hex_text(bytes: Seq<u8>) -> Seq<char>
    decreases bytes.len(),
{
    if bytes.len() == 0 {
        Seq::empty()
    } else {
        let b = bytes.last();
        hex_text(bytes.drop_last()) + seq![hex_digits()[(b / 16) as int], hex_digits()[(b % 16) as int]]
    }
}

proof fn lemma_hex_len(bytes: Seq<u8>)
    ensures
        hex_text(bytes).len() == 2 * bytes.len(),
    decreases bytes.len(),
{
    if bytes.len() > 0 {
        lemma_hex_len(bytes.drop_last());
    }
}

/// `bytes` in lowercase hexadecimal (see `hex_text`).
pub fn to_hex(bytes: &Vec<u8>) -> (r: String)
    ensures
        r@ == hex_text(bytes@),
        r@.len() == 2 * bytes@.len(),
{
    let digits: Vec<char> = vec!['0', '1', '2', '3', '4', '5', '6', '7', '8', '9', 'a', 'b', 'c', 'd', 'e', 'f'];
    assert(digits@ =~= hex_digits());
    let mut r = String::new();
    let mut i: usize = 0;
    while i < bytes.len()
        invariant
            i <= bytes@.len(),
            digits@ == hex_digits(),
            r@ == hex_text(bytes@.take(i as int)),
        decreases bytes@.len() - i,
    {
        assert(bytes@.take(i as int + 1).drop_last() =~= bytes@.take(i as int));
        let b = bytes[i];
        crate::text::push_char(&mut r, digits[(b / 16) as usize]);
        crate::text::push_char(&mut r, digits[(b % 16) as usize]);
        assert(r@ =~= hex_text(bytes@.take(i as int + 1)));
        i = i + 1;
    }
    assert(bytes@.take(i as int) =~= bytes@);
    proof {
        lemma_hex_len(bytes@);
    }
    r
}

/// The SHA-256 hash of `bytes` in lowercase hexadecimal (64 digits).
pub fn compute_bytes_hash(bytes: &[u8]) -> (r: String)
    ensures
        r@ == hex_text(sha256_digest(bytes@)),
        r@.len() == 64,
{
    let digest = sha256_of(bytes);
    to_hex(&digest)
}

/// The SHA-256 hash of the UTF-8 encoding of `content` in lowercase
/// hexadecimal (64 digits).
pub fn compute_content_hash(content: &str) -> (r: String)
    ensures
        r@ == hex_text(sha256_digest(encode_utf8(content@))),
        r@.len() == 64,
{
    compute_bytes_hash(content.as_bytes())
}

// ---------------------------------------------------------------------------
// Streaming lines in batches
// ---------------------------------------------------------------------------

/// Whether a trimmed line is kept: at least five bytes long.
pub open spec fn kept_line(t: Seq<char>) -> bool {
    utf8_len(t) >= 5
}

/// The text hashed for kept lines: each followed by a newline.
pub open spec fn hashed_lines(lines: Seq<Seq<char>>) -> Seq<char>
    decreases lines.len(),
{
    if lines.len() == 0 {
        Seq::empty()
    } else {
        hashed_lines(lines.drop_last()) + lines.last() + "\n"@
    }
}

/// Groups the kept lines of a text file into batches joined by spaces, and
/// hashes them.
pub struct LineBatcher {
    batch_size: usize,
    batch: Vec<String>,
    lines_processed: usize,
    hashed: String,
}

impl LineBatcher {
    /// The lines of the batch being filled.
    pub closed spec fn pending(&self) -> Seq<Seq<char>> {
        views(self.batch@)
    }

    /// The number of lines in batches handed out so far.
    pub closed spec fn processed(&self) -> usize {
        self.lines_processed
    }

    /// The text hashed so far.
    pub closed spec fn hash_input(&self) -> Seq<char> {
        self.hashed@
    }

    /// The batch size.
    pub closed spec fn size(&self) -> usize {
        self.batch_size
    }

    /// A batcher handing out batches of `batch_size` lines.
    pub fn new(batch_size: usize) -> (r: LineBatcher)
        ensures
            r.pending() == Seq::<Seq<char>>::empty(),
            r.processed() == 0,
            r.hash_input() == Seq::<char>::empty(),
            r.size() == batch_size,
    {
        let r = LineBatcher { batch_size, batch: Vec::new(), lines_processed: 0, hashed: String::new() };
        assert(r.pending() =~= Seq::<Seq<char>>::empty());
        r
    }

    /// Takes one line: it is trimmed and, when at least five bytes long,
    /// hashed and added to the batch; a full batch (of at least `batch_size`
    /// lines) is handed out joined by spaces.
    pub fn push_line(&mut self, line: &str) -> (r: Option<String>)
        requires
            old(self).processed() + old(self).pending().len() < usize::MAX,
        ensures
            final(self).size() == old(self).size(),
            !kept_line(trim(line@)) ==> final(self).pending() == old(self).pending() && final(self).processed()
                == old(self).processed() && final(self).hash_input() == old(self).hash_input() && r is None,
            kept_line(trim(line@)) ==> final(self).hash_input() == old(self).hash_input() + trim(line@) + "\n"@,
            kept_line(trim(line@)) && old(self).pending().len() + 1 < old(self).size() ==> final(self).pending()
                == old(self).pending().push(trim(line@)) && final(self).processed() == old(self).processed() && r is None,
            kept_line(trim(line@)) && old(self).pending().len() + 1 >= old(self).size() ==> final(self).pending()
                == Seq::<Seq<char>>::empty() && final(self).processed() == old(self).processed()
                + old(self).pending().len() + 1 && (r matches Some(t) && t@ == join(
                old(self).pending().push(trim(line@)),
                " "@,
            )),
    {
        let t = trim_str(line);
        if !str_utf8_len_at_least(t.as_str(), 5) {
            return None;
        }
        self.hashed.append(t.as_str());
        self.hashed.append("\n");
        let ghost before = self.batch@;
        let ghost tv = t@;
        self.batch.push(t);
        assert(views(self.batch@) =~= views(before).push(tv));
        if self.batch.len() >= self.batch_size {
            let text = join_strings(&self.batch, " ");
            self.lines_processed = self.lines_processed + self.batch.len();
            self.batch.clear();
            assert(views(self.batch@) =~= Seq::<Seq<char>>::empty());
            Some(text)
        } else {
            None
        }
    }

    /// The number of lines in batches handed out so far.
    pub fn lines_handed_out(&self) -> (r: usize)
        ensures
            r == self.processed(),
    {
        self.lines_processed
    }

    /// Ends the stream: the last, partial batch (if any) joined by spaces,
    /// the total number of lines handed out, and the hash of the kept lines
    /// (each followed by a newline) in lowercase hexadecimal.
    pub fn finish(self) -> (r: (Option<String>, usize, String))
        requires
            self.processed() + self.pending().len() <= usize::MAX,
        ensures
            self.pending().len() == 0 ==> r.0 is None,
            self.pending().len() > 0 ==> (r.0 matches Some(t) && t@ == join(self.pending(), " "@)),
            r.1 == self.processed() + self.pending().len(),
            r.2@ == hex_text(sha256_digest(encode_utf8(self.hash_input()))),
    {
        let last = if self.batch.len() > 0 {
            Some(join_strings(&self.batch, " "))
        } else {
            None
        };
        let total = self.lines_processed + self.batch.len();
        let hash = compute_content_hash(self.hashed.as_str());
        (last, total, hash)
    }
}

/// Whether progress is reported after `lines_processed` lines: when it is
/// less than `batch_size` past a multiple of a thousand.
pub open spec fn progress_due_spec(lines_processed: usize, batch_size: usize) -> bool {
    lines_processed % 1000 < batch_size
}

/// Whether progress is reported (see `progress_due_spec`).
pub fn progress_due(lines_processed: usize, batch_size: usize) -> (r: bool)
    ensures
        r == progress_due_spec(lines_processed, batch_size),
{
    lines_processed % 1000 < batch_size
}

// ---------------------------------------------------------------------------
// Metadata
// ---------------------------------------------------------------------------

/// The title and author `pdfinfo` reports: the text after "Title:" and
/// "Author:" on the last lines starting so, trimmed.
pub open spec fn pdfinfo_fields(lines: Seq<Seq<char>>) -> (Option<Seq<char>>, Option<Seq<char>>)
    decreases lines.len(),
{
    if lines.len() == 0 {
        (None, None)
    } else {
        let p = pdfinfo_fields(lines.drop_last());
        let l = lines.last();
        if starts_with(l, "Title:"@) {
            (Some(trim(l.skip(6))), p.1)
        } else if starts_with(l, "Author:"@) {
            (p.0, Some(trim(l.skip(7))))
        } else {
            p
        }
    }
}

/// The lines of `text` split at newlines.
fn split_newlines(text: &str) -> (r: Vec<String>)
    ensures
        views(r@) == newline_pieces(text@),
{
    let v = chars_of(text);
    let mut out: Vec<String> = Vec::new();
    let mut start: usize = 0;
    let mut i: usize = 0;
    assert(v@.take(0) =~= Seq::<char>::empty());
    assert(views(out@).push(v@.subrange(0, 0)) =~= seq![Seq::<char>::empty()]);
    while i < v.len()
        invariant
            start <= i <= v.len(),
            v@ == text@,
            newline_pieces(v@.take(i as int)).len() >= 1,
            newline_pieces(v@.take(i as int)) == views(out@).push(v@.subrange(start as int, i as int)),
        decreases v.len() - i,
    {
        assert(v@.take(i as int + 1).drop_last() =~= v@.take(i as int));
        assert(v@.take(i as int + 1).last() == v@[i as int]);
        let ghost p = newline_pieces(v@.take(i as int));
        if v[i] == '\n' {
            let piece = string_of_range(&v, start, i);
            let ghost before = out@;
            out.push(piece);
            assert(views(out@) =~= views(before).push(v@.subrange(start as int, i as int)));
            start = i + 1;
            assert(v@.subrange(start as int, i as int + 1) =~= Seq::<char>::empty());
            assert(newline_pieces(v@.take(i as int + 1)) == p.push(Seq::<char>::empty()));
            assert(newline_pieces(v@.take(i as int + 1)) =~= views(out@).push(v@.subrange(start as int, i as int + 1)));
        } else {
            assert(v@.subrange(start as int, i as int + 1) =~= v@.subrange(start as int, i as int).push(v@[i as int]));
            assert(newline_pieces(v@.take(i as int + 1)) == p.update(p.len() - 1, p.last().push(v@[i as int])));
            assert(newline_pieces(v@.take(i as int + 1)) =~= views(out@).push(v@.subrange(start as int, i as int + 1)));
        }
        i = i + 1;
    }
    assert(v@.take(i as int) =~= v@);
    let last = string_of_range(&v, start, i);
    let ghost before = out@;
    out.push(last);
    assert(views(out@) =~= views(before).push(v@.subrange(start as int, i as int)));
    out
}

/// The title and author in `pdfinfo` output (see `pdfinfo_fields`).
pub fn parse_pdfinfo(info: &str) -> (r: (Option<String>, Option<String>))
    ensures
        (opt_view(r.0), opt_view(r.1)) == pdfinfo_fields(newline_pieces(info@)),
{
    let lines = split_newlines(info);
    let ghost lv = views(lines@);
    let mut title: Option<String> = None;
    let mut author: Option<String> = None;
    let mut i: usize = 0;
    while i < lines.len()
        invariant
            i <= lines@.len(),
            lv == views(lines@),
            (opt_view(title), opt_view(author)) == pdfinfo_fields(lv.take(i as int)),
        decreases lines@.len() - i,
    {
        assert(lv.take(i as int + 1).drop_last() =~= lv.take(i as int));
        assert(lv.take(i as int + 1).last() == lines@[i as int]@);
        let l = &lines[i];
        let v = chars_of(l.as_str());
        if str_starts_with(l.as_str(), "Title:") {
            proof {
                reveal_strlit("Title:");
            }
            let rest = string_of_range(&v, 6, v.len());
            assert(v@.subrange(6, v@.len() as int) =~= l@.skip(6));
            title = Some(trim_str(rest.as_str()));
        } else if str_starts_with(l.as_str(), "Author:") {
            proof {
                reveal_strlit("Author:");
            }
            let rest = string_of_range(&v, 7, v.len());
            assert(v@.subrange(7, v@.len() as int) =~= l@.skip(7));
            author = Some(trim_str(rest.as_str()));
        }
        i = i + 1;
    }
    assert(lv.take(i as int) =~= lv);
    (title, author)
}

/// The title a book gets when nothing better is known: its file stem, or
/// "Unknown".
pub open spec fn default_title(path: Seq<char>) -> Seq<char> {
    match path_stem(path) {
        Some(s) => s,
        None => "Unknown"@,
    }
}

/// The metadata of a PDF from its `pdfinfo` output: the reported title (or
/// the default title) and author.
pub open spec fn pdf_metadata(path: Seq<char>, info: Seq<char>) -> BookMetadataView {
    let f = pdfinfo_fields(newline_pieces(info));
    BookMetadataView {
        title: match f.0 {
            Some(t) => t,
            None => default_title(path),
        },
        author: f.1,
        format: "pdf"@,
    }
}

/// The default title of `path` (see `default_title`).
pub fn book_title_fallback(path: &str) -> (r: String)
    ensures
        r@ == default_title(path@),
{
    match stem_of(path) {
        Some(s) => s,
        None => to_string("Unknown"),
    }
}

/// The metadata of the PDF at `path` from its `pdfinfo` output (see
/// `pdf_metadata`).
pub fn metadata_from_pdfinfo(path: &str, info: &str) -> (r: BookMetadata)
    ensures
        r@ == pdf_metadata(path@, info@),
{
    let (title, author) = parse_pdfinfo(info);
    let t = match title {
        Some(t) => t,
        None => book_title_fallback(path),
    };
    BookMetadata { title: t, author, format: to_string("pdf") }
}

/// The metadata of a book: for EPUB and PDF files what could be extracted,
/// if anything; otherwise (and for other formats) the default title, no
/// author, and the file format.
pub open spec fn book_metadata(path: Seq<char>, extracted: Option<BookMetadataView>) -> BookMetadataView {
    let format = file_format(path);
    let fallback = BookMetadataView { title: default_title(path), author: None, format };
    if format == "epub"@ || format == "pdf"@ {
        match extracted {
            Some(m) => m,
            None => fallback,
        }
    } else {
        fallback
    }
}

/// The metadata of the book at `path`, given what a format-specific reader
/// extracted (see `book_metadata`).
pub fn extract_book_metadata(path: &str, extracted: Option<BookMetadata>) -> (r: BookMetadata)
    ensures
        r@ == book_metadata(path@, match extracted {
            Some(m) => Some(m@),
            None => None,
        }),
{
    let format = get_file_format(path);
    let title = book_title_fallback(path);
    if str_eq(format.as_str(), "epub") || str_eq(format.as_str(), "pdf") {
        match extracted {
            Some(m) => m,
            None => BookMetadata { title, author: None, format },
        }
    } else {
        BookMetadata { title, author: None, format }
    }
}

} // verus!
