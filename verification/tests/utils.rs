use recon::text::normalize_term;
use recon::utils::{
    document_pages, document_text, format_of, join_pages, markup2string, pdf2pages, pdf2string,
    DocumentFormat,
};

const ONE_PAGE_PDF: &str = "%PDF-1.4\n1 0 obj\n<< /Type /Catalog /Pages 2 0 R >>\nendobj\n2 0 obj\n<< /Type /Pages /Kids [3 0 R] /Count 1 >>\nendobj\n3 0 obj\n<< /Type /Page /Parent 2 0 R /MediaBox [0 0 200 200] /Contents 4 0 R /Resources << /Font << /F1 5 0 R >> >> >>\nendobj\n4 0 obj\n<< /Length 42 >>\nstream\nBT /F1 12 Tf 10 100 Td (Hello World) Tj ET\nendstream\nendobj\n5 0 obj\n<< /Type /Font /Subtype /Type1 /BaseFont /Helvetica >>\nendobj\nxref\n0 6\n0000000000 65535 f \n0000000009 00000 n \n0000000058 00000 n \n0000000115 00000 n \n0000000241 00000 n \n0000000333 00000 n \ntrailer\n<< /Size 6 /Root 1 0 R >>\nstartxref\n403\n%%EOF\n";

#[test]
fn markup_text_is_what_stands_outside_of_tags() {
    assert_eq!(markup2string("<p>Hello <b>World</b></p>"), "Hello World");
    assert_eq!(markup2string("plain"), "plain");
    assert_eq!(markup2string(""), "");
    assert_eq!(markup2string("<br>"), "");
}

#[test]
fn markup_text_is_trimmed_at_both_ends_only() {
    assert_eq!(markup2string("  \n<p> a  b </p>\t"), "a  b");
    assert_eq!(markup2string("\u{3000}x\u{a0}"), "x");
}

#[test]
fn markup_scripts_and_styles_are_ignored() {
    let page = "<html><head><style>p { color: red }</style><script>var x = 1 < 2;</script></head>\
                <body>seen</body></html>";
    assert_eq!(markup2string(page), "seen");
    assert_eq!(markup2string("a<script>b</script>c<style>d</style>e"), "ace");
}

#[test]
fn markup_tag_names_are_read_as_they_grow() {
    assert_eq!(markup2string("a<scripted>b</scripted>c"), "a");
    assert_eq!(markup2string("a<scripted>b</script>c"), "ac");
    assert_eq!(markup2string("a<script >b</script >c"), "a");
    assert_eq!(markup2string("a<SCRIPT>b</SCRIPT>c"), "abc");
    assert_eq!(markup2string("a<script>b"), "a");
    assert_eq!(markup2string("a > b"), "a  b");
}

#[test]
fn formats_are_known_by_their_extension() {
    assert_eq!(format_of("txt"), Some(DocumentFormat::PlainText));
    assert_eq!(format_of("pdf"), Some(DocumentFormat::Pdf));
    assert_eq!(format_of("html"), Some(DocumentFormat::Markup));
    assert_eq!(format_of("TXT"), None);
    assert_eq!(format_of("htm"), None);
    assert_eq!(format_of(""), None);
}

#[test]
fn query_terms_are_lowercased_and_cleaned() {
    assert_eq!(normalize_term("Cat"), "cat");
    assert_eq!(normalize_term("DON'T!"), "dont");
    assert_eq!(normalize_term("\u{c9}t\u{e9}-2"), "\u{e9}t\u{e9}2");
    assert_eq!(normalize_term("..."), "");
    assert_eq!(normalize_term(""), "");
}

#[test]
fn pages_are_joined_in_their_order() {
    let pages = vec![Some("one ".to_string()), None, Some("two".to_string()), None];
    assert_eq!(join_pages(&pages), "one two");
    assert_eq!(join_pages(&Vec::new()), "");
    assert_eq!(join_pages(&vec![None]), "");
}

#[test]
fn pdf_text_is_extracted_from_the_bytes() {
    let text = pdf2string(ONE_PAGE_PDF.as_bytes()).unwrap();
    assert_eq!(text.trim(), "Hello World");
}

#[test]
fn pdf_that_cannot_be_parsed_gives_a_message() {
    let message = pdf2string(b"this is no pdf").unwrap_err();
    assert!(message.starts_with("Failed to load PDF: "));
    assert!(message.len() > "Failed to load PDF: ".len());
    assert!(pdf2string(b"").is_err());
}

#[test]
fn pdf_text_is_the_text_of_the_parsed_document() {
    let document = lopdf::Document::load_mem(ONE_PAGE_PDF.as_bytes()).unwrap();
    let text = document_text(&document);
    assert_eq!(text.trim(), "Hello World");
    assert_eq!(pdf2string(ONE_PAGE_PDF.as_bytes()).unwrap(), text);
    assert_eq!(document_text(&lopdf::Document::with_version("1.5")), "");
}

#[test]
fn pdf_pages_are_listed_one_by_one() {
    let pages = pdf2pages(ONE_PAGE_PDF.as_bytes()).unwrap();
    assert_eq!(pages.len(), 1);
    assert_eq!(pages[0].as_deref().map(str::trim), Some("Hello World"));
    assert_eq!(join_pages(&pages), pdf2string(ONE_PAGE_PDF.as_bytes()).unwrap());
    let document = lopdf::Document::load_mem(ONE_PAGE_PDF.as_bytes()).unwrap();
    assert_eq!(document_pages(&document), pages);
    assert!(document_pages(&lopdf::Document::with_version("1.5")).is_empty());
    assert!(pdf2pages(b"this is no pdf").unwrap_err().starts_with("Failed to load PDF: "));
}

#[test]
fn pdf_page_without_content_is_listed_with_empty_text() {
    let emptied = ONE_PAGE_PDF.replace("/Contents 4 0 R", "/Contents 9 0 R");
    assert_eq!(pdf2pages(emptied.as_bytes()), Ok(vec![Some(String::new())]));
    assert_eq!(pdf2string(emptied.as_bytes()), Ok(String::new()));
}
