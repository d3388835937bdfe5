//! Turning documents of other formats into plain text.

use vstd::prelude::*;
use vstd::string::StringExecFns;
use vstd::utf8::encode_utf8;
use crate::scanner::Scanner;
use crate::text::{byte_len, is_whitespace_char};

verus! {

/// A text without the whitespace at its end.
pub open spec fn trimmed_end(text: Seq<char>) -> Seq<char>
    decreases text.len(),
{
    if text.len() > 0 && is_whitespace_char(text.last()) {
        trimmed_end(text.drop_last())
    } else {
        text
    }
}

/// A text without the whitespace at its start.
pub open spec fn trimmed_start(text: Seq<char>) -> Seq<char>
    decreases text.len(),
{
    if text.len() > 0 && is_whitespace_char(text.first()) {
        trimmed_start(text.drop_first())
    } else {
        text
    }
}

/// A text without the whitespace at its start and at its end.
pub open spec fn trimmed(text: Seq<char>) -> Seq<char> {
    trimmed_end(trimmed_start(text))
}

/// `str::trim`: the text without leading and trailing whitespace, where
/// whitespace is what `char::is_whitespace` says it is.
pub assume_specification[ str::trim ](text: &str) -> (inner: &str)
    ensures
        inner@ == trimmed(text@),
;

/// Where a reader of markup stands: inside a tag or not, inside a script or
/// a style sheet or not, with the name of the tag read so far and the text
/// gathered so far.
pub struct MarkupState {
    pub in_tag: bool,
    pub ignore_content: bool,
    pub tag_name: Seq<char>,
    pub text: Seq<char>,
}

impl MarkupState {
    /// The state before anything was read.
    pub open spec fn start() -> MarkupState {
        MarkupState {
            in_tag: false,
            ignore_content: false,
            tag_name: Seq::empty(),
            text: Seq::empty(),
        }
    }

    /// The state after one more character was read.
    ///
    /// `<` opens a tag and `>` closes it. What stands in a tag is its name
    /// and is no text. As soon as the name reads `script` or `style`, what
    /// follows the tag is ignored, until a tag closes whose name is
    /// `/script` or `/style`. Every other character is text.
    pub open spec fn step(self, c: char) -> MarkupState {
        if c == '<' {
            MarkupState { in_tag: true, tag_name: Seq::empty(), ..self }
        } else if c == '>' {
            MarkupState {
                in_tag: false,
                ignore_content: self.ignore_content && !(self.tag_name == "/script"@
                    || self.tag_name == "/style"@),
                ..self
            }
        } else if self.in_tag {
            MarkupState {
                tag_name: self.tag_name.push(c),
                ignore_content: self.ignore_content || self.tag_name.push(c) == "script"@
                    || self.tag_name.push(c) == "style"@,
                ..self
            }
        } else if !self.ignore_content {
            MarkupState { text: self.text.push(c), ..self }
        } else {
            self
        }
    }

    /// The state after a whole markup was read.
    pub open spec fn after(markup: Seq<char>) -> MarkupState
        decreases markup.len(),
    {
        if markup.len() == 0 {
            MarkupState::start()
        } else {
            MarkupState::after(markup.drop_last()).step(markup.last())
        }
    }
}

/// The text of a markup document: what stands outside of tags, scripts and
/// style sheets, without the whitespace at its start and end.
pub fn markup2string(markup: &str) -> (text: String)
    ensures
        text@ == trimmed(MarkupState::after(markup@).text),
{
    let mut text = String::new();
    let mut in_tag = false;
    let mut ignore_content = false;
    let mut tag_name = String::new();
    let mut scanner = Scanner::new(markup);
    loop
        invariant
            scanner.wf(),
            scanner.text() == markup@,
            0 <= scanner.position() <= markup@.len(),
            MarkupState::after(markup@.take(scanner.position())) == (MarkupState {
                in_tag,
                ignore_content,
                tag_name: tag_name@,
                text: text@,
            }),
        ensures
            MarkupState::after(markup@).text == text@,
        decreases markup@.len() - scanner.position(),
    {
        let ghost pos = scanner.position();
        proof {
            scanner.lemma_position_in_text();
            if pos < markup@.len() {
                assert(markup@.take(pos + 1).drop_last() =~= markup@.take(pos));
            } else {
                assert(markup@.take(pos) =~= markup@);
            }
        }
        match scanner.next_char() {
            Some(c) => {
                if c == '<' {
                    in_tag = true;
                    tag_name = String::new();
                } else if c == '>' {
                    in_tag = false;
                    if tag_name.as_str().eq("/script") || tag_name.as_str().eq("/style") {
                        ignore_content = false;
                    }
                } else if in_tag {
                    tag_name.push(c);
                    if tag_name.as_str().eq("script") || tag_name.as_str().eq("style") {
                        ignore_content = true;
                    }
                } else if !ignore_content {
                    text.push(c);
                }
            },
            None => {
                break ;
            },
        }
    }
    String::from_str(text.as_str().trim())
}

/// What a file holds, as far as its text can be had.
#[derive(Clone, Copy, Debug, PartialEq, Eq, Structural)]
pub enum DocumentFormat {
    /// Plain text, read as it is.
    PlainText,
    /// A PDF document, read by [`pdf2string`].
    Pdf,
    /// A markup document, read by [`markup2string`].
    Markup,
}

/// The format that a file name extension stands for: `txt`, `pdf` or
/// `html`, in this spelling. Files of any other extension are not indexed.
pub fn format_of(extension: &str) -> (format: Option<DocumentFormat>)
    ensures
        format == if extension@ == "txt"@ {
            Some(DocumentFormat::PlainText)
        } else if extension@ == "pdf"@ {
            Some(DocumentFormat::Pdf)
        } else if extension@ == "html"@ {
            Some(DocumentFormat::Markup)
        } else {
            None
        },
{
    if extension.eq("txt") {
        Some(DocumentFormat::PlainText)
    } else if extension.eq("pdf") {
        Some(DocumentFormat::Pdf)
    } else if extension.eq("html") {
        Some(DocumentFormat::Markup)
    } else {
        None
    }
}

/// A parsed PDF document of `lopdf`.
#[verifier::external_type_specification]
#[verifier::external_body]
pub struct ExPdfDocument(lopdf::Document);

/// The error type of `lopdf`.
#[verifier::external_type_specification]
#[verifier::external_body]
pub struct ExPdfError(lopdf::Error);

/// The page numbers of a document, in the order in which the map of
/// `lopdf::Document::get_pages` lists them.
pub uninterp spec fn pdf_page_numbers(document: lopdf::Document) -> Seq<u32>;

/// The text that `lopdf::Document::extract_text` gets from one page of a
/// document, `None` where it fails.
pub uninterp spec fn pdf_page_text(document: lopdf::Document, page: u32) -> Option<Seq<char>>;

/// `lopdf::Document::load_mem`: parses a PDF document from its bytes. With
/// large input `lopdf` parses on several threads, and which document comes
/// out may depend on them, so nothing is claimed of the outcome.
#[verifier::external_body]
pub(crate) fn parse_pdf(bytes: &[u8]) -> Result<lopdf::Document, lopdf::Error> {
    lopdf::Document::load_mem(bytes)
}

/// `lopdf::Document::get_pages`: the page numbers of a document, as the
/// keys of the map that `lopdf` returns come. They depend on the document
/// alone; the contract gives them a name and claims nothing else of them.
#[verifier::external_body]
pub(crate) fn page_numbers(document: &lopdf::Document) -> (numbers: Vec<u32>)
    ensures
        numbers@ == pdf_page_numbers(*document),
{
    document.get_pages().into_keys().collect()
}

/// `lopdf::Document::extract_text` for one page. The outcome depends on the
/// document and the page number alone; the contract gives it a name and
/// claims nothing else of it.
#[verifier::external_body]
pub(crate) fn page_text(document: &lopdf::Document, page: u32) -> (res: Result<
    String,
    lopdf::Error,
>)
    ensures
        match res {
            Ok(text) => pdf_page_text(*document, page) == Some(text@),
            Err(_) => pdf_page_text(*document, page) is None,
        },
{
    document.extract_text(&[page])
}

/// The message of a `lopdf` error, as its `Display` writes it. Nothing is
/// claimed of the message.
#[verifier::external_body]
pub(crate) fn pdf_error_text(error: &lopdf::Error) -> String {
    error.to_string()
}

/// The texts of the pages that have one, one after the other.
pub open spec fn joined(pages: Seq<Option<Seq<char>>>) -> Seq<char>
    decreases pages.len(),
{
    if pages.len() == 0 {
        Seq::empty()
    } else {
        match pages.last() {
            Some(text) => joined(pages.drop_last()) + text,
            None => joined(pages.drop_last()),
        }
    }
}

/// The texts of pages as plain sequences.
pub open spec fn page_views(pages: Seq<Option<String>>) -> Seq<Option<Seq<char>>> {
    Seq::new(
        pages.len(),
        |i: int|
            match pages[i] {
                Some(text) => Some(text@),
                None => None,
            },
    )
}

/// The text of a document from the texts of its pages, in their order. A
/// page whose text could not be had is left out.
pub fn join_pages(pages: &Vec<Option<String>>) -> (text: String)
    ensures
        text@ == joined(page_views(pages@)),
{
    let mut text = String::new();
    let mut i: usize = 0;
    proof {
        assert(page_views(pages@).take(0) =~= Seq::<Option<Seq<char>>>::empty());
    }
    while i < pages.len()
        invariant
            i <= pages.len(),
            text@ == joined(page_views(pages@).take(i as int)),
        decreases pages.len() - i,
    {
        proof {
            assert(page_views(pages@).take(i + 1).drop_last() =~= page_views(pages@).take(
                i as int,
            ));
        }
        match &pages[i] {
            Some(page) => {
                text.append(page.as_str());
            },
            None => {},
        }
        i = i + 1;
    }
    proof {
        assert(page_views(pages@).take(i as int) =~= page_views(pages@));
    }
    text
}

/// What `lopdf` gets from the pages of a document, page by page in the
/// order of the page numbers.
pub open spec fn pdf_pages(document: lopdf::Document) -> Seq<Option<Seq<char>>> {
    Seq::new(
        pdf_page_numbers(document).len(),
        |i: int| pdf_page_text(document, pdf_page_numbers(document)[i]),
    )
}

/// The pages of a parsed PDF document, in the order of their numbers: of
/// each its text, or `None` where the text cannot be extracted.
pub fn document_pages(document: &lopdf::Document) -> (pages: Vec<Option<String>>)
    ensures
        page_views(pages@) == pdf_pages(*document),
{
    let numbers = page_numbers(document);
    let mut pages: Vec<Option<String>> = Vec::new();
    let mut i: usize = 0;
    while i < numbers.len()
        invariant
            i <= numbers.len(),
            numbers@ == pdf_page_numbers(*document),
            pages@.len() == i,
            forall|k: int| 0 <= k < i ==> #[trigger] page_views(pages@)[k] == pdf_pages(*document)[k],
        decreases numbers.len() - i,
    {
        let ghost before = page_views(pages@);
        match page_text(document, numbers[i]) {
            Ok(text) => {
                pages.push(Some(text));
            },
            Err(_) => {
                pages.push(None);
            },
        }
        proof {
            assert forall|k: int| 0 <= k < i + 1 implies #[trigger] page_views(pages@)[k]
                == pdf_pages(*document)[k] by {
                if k < i {
                    assert(page_views(pages@)[k] == before[k]);
                }
            }
        }
        i = i + 1;
    }
    proof {
        assert(page_views(pages@) =~= pdf_pages(*document));
    }
    pages
}

/// The text of a parsed PDF document: the texts of its pages, in the order
/// of their numbers, without the pages whose text cannot be extracted.
pub fn document_text(document: &lopdf::Document) -> (text: String)
    ensures
        text@ == joined(pdf_pages(*document)),
{
    let pages = document_pages(document);
    join_pages(&pages)
}

/// The pages of a PDF document, given as its bytes: the pages of a document
/// that `lopdf` parses from the bytes, as [`document_pages`] lists them.
/// Bytes that do not parse give a message, which names the failure behind a
/// fixed opening. Whether the bytes parse, and to which document, is for
/// `lopdf` to say.
pub fn pdf2pages(bytes: &[u8]) -> (res: Result<Vec<Option<String>>, String>)
    ensures
        match res {
            Ok(pages) => exists|document: lopdf::Document|
                page_views(pages@) == pdf_pages(document),
            Err(message) => exists|reason: Seq<char>|
                message@ == "Failed to load PDF: "@ + reason,
        },
{
    match parse_pdf(bytes) {
        Ok(document) => Ok(document_pages(&document)),
        Err(error) => {
            let mut message = String::from_str("Failed to load PDF: ");
            let reason = pdf_error_text(&error);
            message.append(reason.as_str());
            Err(message)
        },
    }
}

/// The text of a PDF document, given as its bytes: the text of a document
/// that `lopdf` parses from the bytes, as [`document_text`] gives it. Bytes
/// that do not parse give a message, which names the failure behind a fixed
/// opening. Whether the bytes parse, and to which document, is for `lopdf`
/// to say.
pub fn pdf2string(bytes: &[u8]) -> (res: Result<String, String>)
    ensures
        match res {
            Ok(text) => exists|document: lopdf::Document| text@ == joined(pdf_pages(document)),
            Err(message) => exists|reason: Seq<char>|
                message@ == "Failed to load PDF: "@ + reason,
        },
{
    match pdf2pages(bytes) {
        Ok(pages) => Ok(join_pages(&pages)),
        Err(message) => Err(message),
    }
}

/// The greatest byte length among the first `n` of `names`.
pub open spec fn longest(names: Seq<&str>, n: int) -> int
    decreases n,
{
    if n <= 0 {
        0
    } else if encode_utf8(names[n - 1]@).len() > longest(names, n - 1) {
        encode_utf8(names[n - 1]@).len() as int
    } else {
        longest(names, n - 1)
    }
}

/// The width of the name column of a table of results: four more than the
/// longest name takes in bytes, as far as a `usize` can say so.
pub fn column_width(names: &Vec<&str>) -> (width: usize)
    ensures
        width == if longest(names@, names@.len() as int) + 4 <= usize::MAX {
            longest(names@, names@.len() as int) + 4
        } else {
            usize::MAX as int
        },
{
    let mut max: usize = 0;
    let mut i: usize = 0;
    while i < names.len()
        invariant
            i <= names.len(),
            max == longest(names@, i as int),
        decreases names.len() - i,
    {
        let len = byte_len(names[i]);
        if len > max {
            max = len;
        }
        i = i + 1;
    }
    if max <= usize::MAX - 4 {
        max + 4
    } else {
        usize::MAX
    }
}

} // verus!
