use mdnotes::filter::{has_document_extension, is_markdown_file, path_extension, should_ignore_dir};
use std::path::Path;

fn chars(s: &str) -> Vec<char> {
    s.chars().collect()
}

fn extension(path: &str) -> Option<String> {
    path_extension(&chars(path)).map(|found| found.iter().collect())
}

#[test]
fn markdown_extensions_are_documents() {
    assert!(is_markdown_file("/notes/a.md"));
    assert!(is_markdown_file("/notes/a.MD"));
    assert!(is_markdown_file("/notes/guide.mdc"));
    assert!(is_markdown_file("b.Mdc"));
}

#[test]
fn other_extensions_are_not_documents() {
    assert!(!is_markdown_file("/notes/a.txt"));
    assert!(!is_markdown_file("/notes/a.mdx"));
    assert!(!is_markdown_file("/notes/md"));
    assert!(!is_markdown_file("/notes/.md"));
    assert!(!is_markdown_file("/notes.md/readme"));
    assert!(!is_markdown_file(""));
}

#[test]
fn excluded_directory_names() {
    assert!(should_ignore_dir("node_modules"));
    assert!(should_ignore_dir("target"));
    assert!(should_ignore_dir("dist"));
    assert!(should_ignore_dir("build"));
    assert!(should_ignore_dir(".git"));
    assert!(!should_ignore_dir("src"));
    assert!(!should_ignore_dir(".github"));
    assert!(!should_ignore_dir("Target"));
}

#[test]
fn extension_follows_the_last_dot_of_the_final_segment() {
    assert_eq!(extension("a.md"), Some("md".to_string()));
    assert_eq!(extension("/notes/a.b.MD"), Some("MD".to_string()));
    assert_eq!(extension("/notes/archive.tar.gz"), Some("gz".to_string()));
    assert_eq!(extension("/notes/a."), Some("".to_string()));
    assert_eq!(extension("/notes/.hidden.md"), Some("md".to_string()));
    assert_eq!(extension("C:\\notes\\a.md"), Some("md".to_string()));
}

#[test]
fn extension_is_absent_without_a_dot_or_with_a_leading_dot_alone() {
    assert_eq!(extension(""), None);
    assert_eq!(extension("a"), None);
    assert_eq!(extension("/notes/a"), None);
    assert_eq!(extension("/notes/.md"), None);
    assert_eq!(extension(".git"), None);
    assert_eq!(extension("/notes.d/a"), None);
    assert_eq!(extension("C:\\notes.d\\a"), None);
    assert_eq!(extension("C:\\notes\\.md"), None);
    assert_eq!(extension("/notes/a.md/"), None);
}

#[test]
fn document_extensions_are_md_and_mdc() {
    assert!(has_document_extension(&chars("md")));
    assert!(has_document_extension(&chars("mdc")));
    assert!(!has_document_extension(&chars("MD")));
    assert!(!has_document_extension(&chars("m")));
    assert!(!has_document_extension(&chars("mdcc")));
    assert!(!has_document_extension(&chars("")));
    assert!(!has_document_extension(&chars("txt")));
}

#[test]
fn documents_agree_with_the_extension_of_the_standard_library() {
    let paths = [
        "a.md",
        "a.MD",
        "a.Md",
        "a.mdc",
        "a.MDC",
        "a.txt",
        "a.md.txt",
        "a.txt.md",
        "a",
        ".md",
        ".mdc",
        ".a.md",
        "a.",
        "a..md",
        "/notes/a.md",
        "/notes/sub.dir/a",
        "/notes/sub.md/a",
        "/notes/sub.md/a.mdc",
        "relative/path/to/note.md",
        "/notes/\u{65e5}\u{672c}\u{8a9e}.md",
        "/notes/with space.md",
        "/notes/a.m\u{44}",
        "/notes/a.\u{4d}d",
    ];
    for path in paths.iter() {
        let expected = match Path::new(path).extension() {
            Some(found) => {
                let lower = found.to_string_lossy().to_lowercase();
                lower == "md" || lower == "mdc"
            }
            None => false,
        };
        assert_eq!(is_markdown_file(path), expected);
    }
}
