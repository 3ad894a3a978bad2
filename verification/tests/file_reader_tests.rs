use seed_intelligence::file_reader::{compute_content_hash, get_file_format, is_ebook_format, is_pdf_format};

#[test]
fn test_is_ebook_format() {
    assert!(is_ebook_format("book.epub"));
    assert!(is_ebook_format("book.mobi"));
    assert!(is_ebook_format("book.azw3"));
    assert!(!is_ebook_format("book.txt"));
}

#[test]
fn file_reader_test_is_pdf_format() {
    assert!(is_pdf_format("document.pdf"));
    assert!(!is_pdf_format("document.txt"));
}

#[test]
fn test_compute_content_hash() {
    let hash1 = compute_content_hash("test content");
    let hash2 = compute_content_hash("test content");
    let hash3 = compute_content_hash("different content");
    assert_eq!(hash1, hash2);
    assert_ne!(hash1, hash3);
    assert_eq!(hash1.len(), 64);
}

#[test]
fn test_get_file_format() {
    assert_eq!(get_file_format("book.epub"), "epub");
    assert_eq!(get_file_format("book.PDF"), "pdf");
    assert_eq!(get_file_format("book.txt"), "txt");
}

#[test]
fn test_is_ebook_format_epub() {
    assert!(is_ebook_format("book.epub"));
}

#[test]
fn test_is_ebook_format_mobi() {
    assert!(is_ebook_format("book.mobi"));
}

#[test]
fn test_is_ebook_format_azw3() {
    assert!(is_ebook_format("book.azw3"));
}

#[test]
fn test_is_ebook_format_azw() {
    assert!(is_ebook_format("book.azw"));
}

#[test]
fn test_is_ebook_format_txt() {
    assert!(!is_ebook_format("book.txt"));
}

#[test]
fn test_is_ebook_format_no_extension() {
    assert!(!is_ebook_format("book"));
}

#[test]
fn test_is_ebook_format_case_insensitive() {
    assert!(is_ebook_format("book.EPUB"));
    assert!(is_ebook_format("book.Mobi"));
}

#[test]
fn file_reader_tests_test_is_pdf_format() {
    assert!(is_pdf_format("document.pdf"));
}

#[test]
fn test_is_pdf_format_not_pdf() {
    assert!(!is_pdf_format("document.txt"));
}

#[test]
fn test_is_pdf_format_case_insensitive() {
    assert!(is_pdf_format("document.PDF"));
}
