use md_archive::file_structure::{extract_number_prefix, generate_file_structure, FileEntry, RawEntry};

fn raw_file(name: &str) -> RawEntry {
    RawEntry::File {
        name: name.to_string(),
        path: format!("content/{}", name),
    }
}

fn raw_dir(name: &str, children: Vec<RawEntry>) -> RawEntry {
    RawEntry::Directory {
        name: name.to_string(),
        children,
    }
}

fn entry_name(e: &FileEntry) -> &str {
    match e {
        FileEntry::File { name, .. } => name,
        FileEntry::Directory { name, .. } => name,
    }
}

/// Checks that directories come strictly before files in every `children`
/// sequence and that each group is numbered contiguously from 0.
fn check_ordered(entries: &[FileEntry]) {
    let mut seen_file = false;
    let mut dir_count = 0;
    let mut file_count = 0;
    for e in entries {
        match e {
            FileEntry::Directory { order, children, .. } => {
                assert!(!seen_file, "directory after a file");
                assert_eq!(*order, Some(dir_count));
                dir_count += 1;
                check_ordered(children);
            }
            FileEntry::File { order, .. } => {
                seen_file = true;
                assert_eq!(*order, Some(file_count));
                file_count += 1;
            }
        }
    }
}

#[test]
fn directories_before_files_and_contiguous_orders() {
    let raw = vec![
        raw_file("readme.md"),
        raw_dir(
            "topics",
            vec![
                raw_file("z.md"),
                raw_dir("inner", vec![raw_file("deep.md")]),
                raw_file("a.md"),
            ],
        ),
        raw_file("notes.md"),
        raw_dir("archive", vec![]),
    ];
    let tree = generate_file_structure(&raw);
    check_ordered(&tree);
    assert_eq!(tree.len(), 4);
    assert!(matches!(tree[0], FileEntry::Directory { .. }));
    assert!(matches!(tree[1], FileEntry::Directory { .. }));
    assert!(matches!(tree[2], FileEntry::File { .. }));
    assert!(matches!(tree[3], FileEntry::File { .. }));
}

#[test]
fn numeric_prefix_ordering() {
    let raw = vec![
        raw_dir("2 B", vec![]),
        raw_dir("01 A", vec![]),
        raw_dir("004 C", vec![]),
        raw_dir("Zed", vec![]),
    ];
    let tree = generate_file_structure(&raw);
    let names: Vec<&str> = tree.iter().map(entry_name).collect();
    assert_eq!(names, vec!["01 A", "2 B", "004 C", "Zed"]);
}

#[test]
fn indexing_twice_is_identical() {
    let raw = vec![
        raw_dir(
            "10 guides",
            vec![raw_file("b.md"), raw_file("a.md"), raw_dir("5 sub", vec![])],
        ),
        raw_dir("guides", vec![]),
        raw_file("top.md"),
    ];
    let first = generate_file_structure(&raw);
    let second = generate_file_structure(&raw);
    assert_eq!(first, second);
}

#[test]
fn directories_sort_case_insensitively() {
    // Case-sensitive comparison would put "B" (0x42) before "a" (0x61);
    // the directory comparator lowercases first.
    let raw = vec![raw_dir("B", vec![]), raw_dir("a", vec![])];
    let tree = generate_file_structure(&raw);
    let names: Vec<&str> = tree.iter().map(entry_name).collect();
    assert_eq!(names, vec!["a", "B"]);
}

#[test]
fn files_sort_case_sensitively() {
    let raw = vec![raw_file("a.md"), raw_file("B.md")];
    let tree = generate_file_structure(&raw);
    let names: Vec<&str> = tree.iter().map(entry_name).collect();
    assert_eq!(names, vec!["B.md", "a.md"]);
}

#[test]
fn files_keep_their_paths() {
    let raw = vec![raw_file("x.md")];
    let tree = generate_file_structure(&raw);
    match &tree[0] {
        FileEntry::File { name, path, order } => {
            assert_eq!(name, "x.md");
            assert_eq!(path, "content/x.md");
            assert_eq!(*order, Some(0));
        }
        _ => panic!("expected a file"),
    }
}

#[test]
fn empty_listing_indexes_to_empty_tree() {
    let raw: Vec<RawEntry> = Vec::new();
    let tree = generate_file_structure(&raw);
    assert!(tree.is_empty());
}

#[test]
fn equal_numeric_prefixes_keep_input_order() {
    // "01 A" and "1 B" tie on the prefix value 1: the sort is stable.
    let raw = vec![raw_dir("1 B", vec![]), raw_dir("01 A", vec![])];
    let tree = generate_file_structure(&raw);
    let names: Vec<&str> = tree.iter().map(entry_name).collect();
    assert_eq!(names, vec!["1 B", "01 A"]);
}

#[test]
fn prefix_extraction() {
    assert_eq!(extract_number_prefix("01 Intro"), Some(1));
    assert_eq!(extract_number_prefix("2 Basics"), Some(2));
    assert_eq!(extract_number_prefix("004 Details"), Some(4));
    assert_eq!(extract_number_prefix("Zed"), None);
    assert_eq!(extract_number_prefix("  7 indented"), Some(7));
    assert_eq!(extract_number_prefix("+12 plus"), Some(12));
    assert_eq!(extract_number_prefix("12"), Some(12));
    assert_eq!(extract_number_prefix("12a"), None);
    assert_eq!(extract_number_prefix(""), None);
    assert_eq!(extract_number_prefix("   "), None);
    assert_eq!(extract_number_prefix("4294967295 max"), Some(4294967295));
    assert_eq!(extract_number_prefix("4294967296 over"), None);
    assert_eq!(extract_number_prefix("99999999999999999999 huge"), None);
}
