use mdnotes::error::AppError;
use mdnotes::node::FileNode;
use mdnotes::snapshot::{EntryKind, FsEntry};
use mdnotes::tree::{build_file_tree, contains_markdown_files, scan_directory, visits_document};

fn file(path: &str) -> FsEntry {
    let name = path.rsplit('/').next().unwrap();
    FsEntry::file(name.to_string(), path.to_string(), None)
}

fn dir(path: &str, entries: Vec<FsEntry>) -> FsEntry {
    let name = path.rsplit('/').next().unwrap();
    FsEntry::directory(name.to_string(), path.to_string(), entries)
}

fn unreadable(path: &str, reason: &str) -> FsEntry {
    let name = path.rsplit('/').next().unwrap();
    FsEntry::unreadable_directory(name.to_string(), path.to_string(), reason.to_string())
}

fn file_node(path: &str) -> FileNode {
    let name = path.rsplit('/').next().unwrap();
    FileNode { name: name.to_string(), path: path.to_string(), is_directory: false, children: None }
}

fn dir_node(path: &str, children: Vec<FileNode>) -> FileNode {
    let name = path.rsplit('/').next().unwrap();
    FileNode {
        name: name.to_string(),
        path: path.to_string(),
        is_directory: true,
        children: Some(children),
    }
}

/// A chain of `levels` directories below `top`, the deepest holding `leaf`.
fn chain(top: &str, levels: usize, leaf: &str) -> FsEntry {
    let mut paths = vec![top.to_string()];
    for level in 1..levels {
        let next = format!("{}/d{}", paths[level - 1], level);
        paths.push(next);
    }
    let mut entry = file(&format!("{}/{}", paths[levels - 1], leaf));
    for path in paths.iter().rev() {
        entry = dir(path, vec![entry]);
    }
    entry
}

fn names(nodes: &[FileNode]) -> Vec<String> {
    nodes.iter().map(|node| node.name.clone()).collect()
}

fn holds_document(node: &FileNode) -> bool {
    match &node.children {
        None => !node.is_directory,
        Some(children) => children.iter().any(holds_document),
    }
}

fn every_directory_holds_document(nodes: &[FileNode]) -> bool {
    nodes.iter().all(|node| {
        (!node.is_directory || holds_document(node))
            && every_directory_holds_document(node.children.as_deref().unwrap_or(&[]))
    })
}

#[test]
fn tree_of_the_example() {
    let root = dir(
        "/notes",
        vec![dir("/notes/build", vec![file("/notes/build/x.md")]), file("/notes/a.md")],
    );
    assert_eq!(scan_directory("/notes".to_string(), Some(&root)), Ok(vec![file_node("/notes/a.md")]));
}

#[test]
fn scan_of_a_missing_path() {
    assert_eq!(
        scan_directory("/nowhere".to_string(), None),
        Err(AppError::FileNotFound("/nowhere".to_string()))
    );
}

#[test]
fn scan_of_a_file() {
    let root = file("/notes/a.md");
    assert_eq!(
        scan_directory("/notes/a.md".to_string(), Some(&root)),
        Err(AppError::NotADirectory("/notes/a.md".to_string()))
    );
}

#[test]
fn scan_of_a_directory_that_cannot_be_enumerated() {
    let root = unreadable("/notes", "permission denied");
    assert_eq!(
        scan_directory("/notes".to_string(), Some(&root)),
        Err(AppError::ScanError("読み込みエラー: permission denied".to_string()))
    );
}

#[test]
fn scan_of_an_empty_directory() {
    let root = dir("/notes", vec![]);
    assert_eq!(scan_directory("/notes".to_string(), Some(&root)), Ok(vec![]));
}

#[test]
fn scan_does_not_test_the_name_of_the_root() {
    let root = dir("/work/target", vec![file("/work/target/a.md")]);
    assert_eq!(
        scan_directory("/work/target".to_string(), Some(&root)),
        Ok(vec![file_node("/work/target/a.md")])
    );
}

#[test]
fn directories_come_before_files() {
    let entries = vec![
        file("/n/a.md"),
        dir("/n/zeta", vec![file("/n/zeta/z.md")]),
        file("/n/b.md"),
        dir("/n/alpha", vec![file("/n/alpha/a.md")]),
    ];
    assert_eq!(names(&build_file_tree(&entries)), vec!["alpha", "zeta", "a.md", "b.md"]);
}

#[test]
fn names_are_ordered_without_regard_to_case() {
    let entries = vec![file("/n/banana.md"), file("/n/Cherry.md"), file("/n/apple.md"), file("/n/Avocado.md")];
    assert_eq!(
        names(&build_file_tree(&entries)),
        vec!["apple.md", "Avocado.md", "banana.md", "Cherry.md"]
    );
}

#[test]
fn names_that_differ_in_case_only_keep_their_order() {
    let entries = vec![file("/n/b.md"), file("/n/A.md"), file("/n/a.md"), file("/n/B.md")];
    assert_eq!(names(&build_file_tree(&entries)), vec!["A.md", "a.md", "b.md", "B.md"]);
    let entries = vec![file("/n/B.md"), file("/n/a.md"), file("/n/A.md"), file("/n/b.md")];
    assert_eq!(names(&build_file_tree(&entries)), vec!["a.md", "A.md", "B.md", "b.md"]);
}

#[test]
fn children_are_ordered_too() {
    let entries = vec![dir(
        "/n/d",
        vec![file("/n/d/z.md"), dir("/n/d/sub", vec![file("/n/d/sub/q.mdc")]), file("/n/d/A.md")],
    )];
    assert_eq!(
        build_file_tree(&entries),
        vec![dir_node(
            "/n/d",
            vec![
                dir_node("/n/d/sub", vec![file_node("/n/d/sub/q.mdc")]),
                file_node("/n/d/A.md"),
                file_node("/n/d/z.md"),
            ],
        )]
    );
}

#[test]
fn files_that_are_no_documents_are_left_out() {
    let entries = vec![
        file("/n/a.txt"),
        file("/n/b.md"),
        file("/n/c.markdown"),
        file("/n/d"),
        file("/n/.md"),
        file("/n/E.MDC"),
    ];
    assert_eq!(names(&build_file_tree(&entries)), vec!["b.md", "E.MDC"]);
}

#[test]
fn directories_without_documents_are_left_out() {
    let entries = vec![
        dir("/n/empty", vec![]),
        dir("/n/text", vec![file("/n/text/a.txt")]),
        dir("/n/nested", vec![dir("/n/nested/deeper", vec![])]),
        dir("/n/kept", vec![dir("/n/kept/void", vec![]), dir("/n/kept/in", vec![file("/n/kept/in/a.md")])]),
    ];
    assert_eq!(
        build_file_tree(&entries),
        vec![dir_node("/n/kept", vec![dir_node("/n/kept/in", vec![file_node("/n/kept/in/a.md")])])]
    );
}

#[test]
fn excluded_directories_are_left_out_with_all_beneath() {
    for name in ["node_modules", "target", "dist", "build", ".git"] {
        let hidden = format!("/n/{}", name);
        let entries = vec![
            dir(&hidden, vec![file(&format!("{}/a.md", hidden))]),
            dir("/n/docs", vec![dir(&format!("/n/docs/{}", name), vec![file(&format!("/n/docs/{}/b.md", name))])]),
            file("/n/c.md"),
        ];
        assert_eq!(build_file_tree(&entries), vec![file_node("/n/c.md")]);
    }
}

#[test]
fn a_directory_that_cannot_be_enumerated_is_left_out() {
    let entries = vec![unreadable("/n/locked", "permission denied"), file("/n/a.md")];
    assert_eq!(build_file_tree(&entries), vec![file_node("/n/a.md")]);
}

#[test]
fn a_directory_named_like_a_document_is_no_document() {
    let entries = vec![dir("/n/notes.md", vec![]), dir("/n/more.md", vec![file("/n/more.md/a.md")])];
    assert_eq!(
        build_file_tree(&entries),
        vec![dir_node("/n/more.md", vec![file_node("/n/more.md/a.md")])]
    );
}

#[test]
fn look_ahead_finds_a_document_ten_levels_down() {
    let top = chain("/n/top", 10, "a.md");
    assert!(contains_markdown_files(&top));
    let tree = build_file_tree(&vec![top]);
    assert_eq!(names(&tree), vec!["top"]);
    let mut node = &tree[0];
    for level in 1..10 {
        let children = node.children.as_ref().unwrap();
        assert_eq!(names(children), vec![format!("d{}", level)]);
        node = &children[0];
    }
    assert_eq!(node.children.as_ref().unwrap(), &vec![file_node("/n/top/d1/d2/d3/d4/d5/d6/d7/d8/d9/a.md")]);
}

#[test]
fn look_ahead_misses_a_document_eleven_levels_down() {
    let top = chain("/n/top", 11, "a.md");
    assert!(!contains_markdown_files(&top));
    assert_eq!(build_file_tree(&vec![top]), vec![]);
}

#[test]
fn look_ahead_at_a_file() {
    assert!(contains_markdown_files(&file("/n/a.md")));
    assert!(!contains_markdown_files(&file("/n/a.txt")));
}

#[test]
fn look_ahead_of_no_depth_sees_the_entry_alone() {
    assert!(visits_document(&file("/n/a.md"), 0));
    assert!(!visits_document(&dir("/n/d", vec![file("/n/d/a.md")]), 0));
    assert!(visits_document(&dir("/n/d", vec![file("/n/d/a.md")]), 1));
    assert!(!visits_document(&dir("/n/d", vec![dir("/n/d/e", vec![file("/n/d/e/a.md")])]), 1));
    assert!(visits_document(&dir("/n/d", vec![dir("/n/d/e", vec![file("/n/d/e/a.md")])]), 2));
}

#[test]
fn look_ahead_does_not_enter_excluded_directories() {
    assert!(!contains_markdown_files(&dir("/n/target", vec![file("/n/target/a.md")])));
    assert!(!contains_markdown_files(&dir("/n/d", vec![dir("/n/d/.git", vec![file("/n/d/.git/a.md")])])));
}

#[test]
fn nodes_keep_name_and_path_and_kind() {
    let entries = vec![
        FsEntry::file("shown.md".to_string(), "/odd/path/of/file".to_string() + ".md", None),
        FsEntry {
            name: "label".to_string(),
            path: "/somewhere/else".to_string(),
            kind: EntryKind::Directory { listing: Ok(vec![file("/x/a.md")]) },
        },
    ];
    assert_eq!(
        build_file_tree(&entries),
        vec![
            FileNode {
                name: "label".to_string(),
                path: "/somewhere/else".to_string(),
                is_directory: true,
                children: Some(vec![file_node("/x/a.md")]),
            },
            FileNode {
                name: "shown.md".to_string(),
                path: "/odd/path/of/file.md".to_string(),
                is_directory: false,
                children: None,
            },
        ]
    );
}

#[test]
fn no_directory_of_a_tree_is_empty() {
    let entries = vec![
        dir("/n/a", vec![dir("/n/a/b", vec![dir("/n/a/b/c", vec![])]), file("/n/a/x.txt")]),
        dir("/n/d", vec![dir("/n/d/e", vec![file("/n/d/e/f.md")]), dir("/n/d/g", vec![])]),
        chain("/n/far", 11, "a.md"),
        chain("/n/near", 3, "a.md"),
        dir("/n/h", vec![dir("/n/h/dist", vec![file("/n/h/dist/a.md")])]),
    ];
    let tree = build_file_tree(&entries);
    assert_eq!(names(&tree), vec!["d", "near"]);
    assert!(every_directory_holds_document(&tree));
}

#[test]
fn a_copy_of_a_node_holds_the_same() {
    let entries = vec![
        dir("/n/d", vec![dir("/n/d/e", vec![file("/n/d/e/f.md")]), file("/n/d/g.md")]),
        file("/n/a.md"),
    ];
    let tree = build_file_tree(&entries);
    let copy = tree[0].clone();
    assert_eq!(copy, tree[0]);
    assert_eq!(
        copy,
        dir_node("/n/d", vec![dir_node("/n/d/e", vec![file_node("/n/d/e/f.md")]), file_node("/n/d/g.md")])
    );
    assert_eq!(tree[1].clone(), file_node("/n/a.md"));
}

#[test]
fn names_are_ordered_by_the_lowercase_of_the_whole_name() {
    // The capitals end in a sigma that becomes the final small sigma, which
    // comes before the other small sigma and makes the name a prefix.
    let first = vec![
        dir("/n/οδος-x", vec![file("/n/οδος-x/a.md")]),
        dir("/n/ΟΔΟΣ", vec![file("/n/ΟΔΟΣ/a.md")]),
    ];
    assert_eq!(names(&build_file_tree(&first)), vec!["ΟΔΟΣ", "οδος-x"]);
    let second = vec![
        dir("/n/ΟΔΟΣ", vec![file("/n/ΟΔΟΣ/a.md")]),
        dir("/n/οδος-x", vec![file("/n/οδος-x/a.md")]),
    ];
    assert_eq!(names(&build_file_tree(&second)), vec!["ΟΔΟΣ", "οδος-x"]);
}

#[test]
fn order_does_not_follow_enumeration_where_lowercase_names_differ() {
    let first = vec![
        dir("/n/οδοσ", vec![file("/n/οδοσ/a.md")]),
        dir("/n/ΟΔΟΣ", vec![file("/n/ΟΔΟΣ/a.md")]),
        file("/n/b.md"),
        file("/n/A.md"),
    ];
    let second = vec![
        file("/n/A.md"),
        dir("/n/ΟΔΟΣ", vec![file("/n/ΟΔΟΣ/a.md")]),
        file("/n/b.md"),
        dir("/n/οδοσ", vec![file("/n/οδοσ/a.md")]),
    ];
    assert_eq!(names(&build_file_tree(&first)), vec!["ΟΔΟΣ", "οδοσ", "A.md", "b.md"]);
    assert_eq!(build_file_tree(&first), build_file_tree(&second));
}

#[test]
fn order_agrees_with_the_lowercase_of_the_standard_library() {
    let given = ["b.md", "ΟΔΟΣ.md", "οδοσ.md", "a.md", "Z.md", "οδος-x.md", "É.md", "e.md", "\u{130}.md"];
    let entries: Vec<FsEntry> = given.iter().map(|name| file(&format!("/n/{}", name))).collect();
    let mut expected: Vec<String> = given.iter().map(|name| name.to_string()).collect();
    expected.sort_by(|a, b| a.to_lowercase().cmp(&b.to_lowercase()));
    assert_eq!(names(&build_file_tree(&entries)), expected);
}
