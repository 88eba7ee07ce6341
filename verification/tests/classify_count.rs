//! Classification of entry names and extensions, and line counting.

use file_len_inventory::file_len_inventory::{count_lines, is_hidden};
use file_len_inventory::inventory_processor::{is_text_or_csv_file, FileExtension};

#[test]
fn test_is_text_or_csv_file() {
    let txt_file: &str = "test.txt";
    let upper_txt_file: &str = "test.TXT";
    let csv_file: &str = "test.csv";
    let other_file: &str = "test,xlsx";

    assert!(is_text_or_csv_file(txt_file));
    assert!(is_text_or_csv_file(upper_txt_file));
    assert!(is_text_or_csv_file(csv_file));
    assert!(!is_text_or_csv_file(other_file));
}

#[test]
fn test_is_hidden() {
    assert!(is_hidden("./assets/.env"));
}

#[test]
fn test_count_files_with_header() {
    let content: Vec<u8> = b"a\nb\nc\nd\ne\nf\ng\nh\ni\nj\n".to_vec();
    assert_eq!(count_lines(&content, false), 10);
}

#[test]
fn test_count_files_without_header() {
    let content: Vec<u8> =
        b"Hello, World!\nThis is a test file.\nI am testing the file_len_inventory module.\n"
            .to_vec();
    assert_eq!(count_lines(&content, true), 2);
}

#[test]
fn counts_trailing_unterminated_line() {
    assert_eq!(count_lines(&b"line1\nline2\nline3".to_vec(), false), 3);
    assert_eq!(count_lines(&b"line1\nline2\nline3\n".to_vec(), false), 3);
}

#[test]
fn count_of_empty_contents_is_zero() {
    assert_eq!(count_lines(&Vec::new(), false), 0);
    // With the header flag and no lines the count stays zero, never negative.
    assert_eq!(count_lines(&Vec::new(), true), 0);
}

#[test]
fn header_discounts_one_line() {
    assert_eq!(count_lines(&b"only line".to_vec(), false), 1);
    assert_eq!(count_lines(&b"only line".to_vec(), true), 0);
    assert_eq!(count_lines(&b"h\na\nb\n".to_vec(), true), 2);
}

#[test]
fn hidden_judges_the_final_segment_only() {
    assert!(is_hidden(".env"));
    assert!(is_hidden("dir/sub/.gitignore"));
    assert!(!is_hidden("a.txt"));
    assert!(!is_hidden(".hidden_dir/visible.txt"));
    assert!(!is_hidden(""));
}

#[test]
fn eligibility_by_extension() {
    assert!(is_text_or_csv_file("x.Csv"));
    assert!(is_text_or_csv_file("dir.d/x.cSV"));
    assert!(!is_text_or_csv_file("noext"));
    assert!(!is_text_or_csv_file("x."));
    // A leading dot alone starts the name, not an extension.
    assert!(!is_text_or_csv_file(".txt"));
    assert!(is_text_or_csv_file(".hidden.txt"));
    assert!(!is_text_or_csv_file("archive.txt.gz"));
}

#[test]
fn extension_kinds() {
    assert!(matches!(FileExtension::from_path("a.TXT"), FileExtension::Txt));
    assert!(matches!(FileExtension::from_path("a.csv"), FileExtension::Csv));
    assert!(matches!(FileExtension::from_path("a.xlsx"), FileExtension::Other));
    assert!(matches!(FileExtension::from_path("a"), FileExtension::Other));
}
