use md_archive::file_structure::{generate_file_structure, FileEntry, RawEntry};
use md_archive::html_generator::{build_html_structure, markdown_path, markdown_to_html};

#[test]
fn markdown_renders_headings() {
    let html = markdown_to_html("# Hi");
    assert_eq!(html, "<h1>Hi</h1>\n");
}

#[test]
fn markdown_renders_strikethrough() {
    let html = markdown_to_html("~~gone~~");
    assert_eq!(html, "<p><del>gone</del></p>\n");
}

#[test]
fn markdown_renders_paragraphs_and_emphasis() {
    let html = markdown_to_html("plain *em* text");
    assert_eq!(html, "<p>plain <em>em</em> text</p>\n");
}

#[test]
fn markdown_path_appends_extension() {
    assert_eq!(markdown_path("content/messages/TheArchive"), "content/messages/TheArchive.md");
    assert_eq!(markdown_path(""), ".md");
}

#[test]
fn file_entry_html() {
    let entry = FileEntry::File {
        name: "intro.md".to_string(),
        path: "content/intro.md".to_string(),
        order: Some(0),
    };
    let html = build_html_structure(&entry);
    assert_eq!(
        html,
        "<div class=\"file-container\"><button onclick=\"loadContent('content/intro.md')\" \
         class=\"file-link\"><i class=\"fa-solid fa-file file-icon\"></i>intro.md</button></div>"
    );
}

#[test]
fn file_entry_html_normalizes_backslashes() {
    let entry = FileEntry::File {
        name: "a.md".to_string(),
        path: "content\\sub\\a.md".to_string(),
        order: Some(0),
    };
    let html = build_html_structure(&entry);
    assert!(html.contains("loadContent('content/sub/a.md')"));
    assert!(!html.contains('\\'));
}

#[test]
fn directory_entry_html_nests_children() {
    let raw = vec![RawEntry::Directory {
        name: "guides".to_string(),
        children: vec![
            RawEntry::File {
                name: "b.md".to_string(),
                path: "content/guides/b.md".to_string(),
            },
            RawEntry::File {
                name: "a.md".to_string(),
                path: "content/guides/a.md".to_string(),
            },
        ],
    }];
    let tree = generate_file_structure(&raw);
    let html = build_html_structure(&tree[0]);
    assert!(html.starts_with(
        "<div class=\"dropdown-container\"><button class=\"dropdown-button\">guides</button>"
    ));
    // Children appear in sorted order, joined by a newline.
    let a = html.find("a.md</button>").expect("first child");
    let b = html.find("b.md</button>").expect("second child");
    assert!(a < b);
    assert!(html.contains('\n'));
    assert!(html.ends_with("</div></div>"));
}

#[test]
fn empty_directory_html_has_empty_content() {
    let entry = FileEntry::Directory {
        name: "empty".to_string(),
        order: Some(0),
        children: Vec::new(),
    };
    let html = build_html_structure(&entry);
    assert_eq!(
        html,
        "<div class=\"dropdown-container\"><button class=\"dropdown-button\">empty</button>\
         <div class=\"dropdown-content\"></div></div>"
    );
}
