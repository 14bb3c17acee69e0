use tree::links::WalkedFile;
use tree::short_id::find_short_link;
use tree::dir_tree::{listing_order, render_html_recursive, TreeNode};
use tree::page::render_index_page;
use tree::short_id::hash_path;

fn dir(name: &str, children: Vec<TreeNode>) -> TreeNode {
    TreeNode::Dir { name: Some(name.as_bytes().to_vec()), children }
}

fn file(name: &str, rel: &str, size: Option<u64>, modified: Option<&str>) -> TreeNode {
    TreeNode::File {
        name: Some(name.as_bytes().to_vec()),
        rel_path: Some(rel.to_string()),
        size,
        modified: modified.map(|m| m.to_string()),
    }
}

fn expected_row(icon: &str, prefix: &str, encoded: &str, name: &str, size: &str, date: &str, id: &str) -> String {
    format!(
        r##"<div class="file">
                <div class="file-name">
                    <span class="file-icon">{}</span>
                    <a href="{}/{}">{}</a>
                </div>
                <div class="file-info">
                    <span class="file-size">{}</span>
                    <span class="file-date">{}</span>
                    <span class="copy-link" title="Copy direct link" data-link="{}/{}" onclick="copyLink(this)">🔗</span>
                    <span class="qr-trigger" title="Generate QR Code" onclick="showQR('{}')">📱</span>
                </div>
            </div>"##,
        icon, prefix, encoded, name, size, date, prefix, encoded, id
    )
}

#[test]
fn directories_come_first_then_names_in_byte_order() {
    let entries = vec![
        file("b.txt", "b.txt", None, None),
        dir("zeta", vec![]),
        file("B.txt", "B.txt", None, None),
        dir("alpha", vec![]),
        file("a.txt", "a.txt", None, None),
    ];
    assert_eq!(listing_order(&entries), vec![3, 1, 2, 4, 0]);
    assert_eq!(listing_order(&Vec::new()), Vec::<usize>::new());
}

#[test]
fn a_file_row() {
    let node = file("说明 文档.PDF", "docs/说明 文档.PDF", Some(1536), Some("2024-04-22 09:15"));
    let mut html = String::from("before:");
    render_html_recursive(&node, "/files", &mut html);
    let expected = format!(
        "before:{}",
        expected_row(
            "📄",
            "/files",
            "docs/%E8%AF%B4%E6%98%8E%20%E6%96%87%E6%A1%A3.PDF",
            "说明 文档.PDF",
            "1.50 KB",
            "2024-04-22 09:15",
            &hash_path("docs/说明 文档.PDF"),
        )
    );
    assert_eq!(html, expected);
}

#[test]
fn unknown_metadata_shows_dashes_and_odd_names_show_a_slash() {
    let node = TreeNode::File {
        name: Some(vec![0xff, b'.', b'm', b'p', b'4']),
        rel_path: Some("x.mp4".to_string()),
        size: None,
        modified: None,
    };
    let mut html = String::new();
    render_html_recursive(&node, "/files", &mut html);
    assert_eq!(html, expected_row("🎬", "/files", "x.mp4", "/", "-", "-", &hash_path("x.mp4")));
}

#[test]
fn a_file_outside_the_root_adds_nothing() {
    let node = TreeNode::File { name: Some(b"x".to_vec()), rel_path: None, size: Some(1), modified: None };
    let mut html = String::from("keep");
    render_html_recursive(&node, "/files", &mut html);
    assert_eq!(html, "keep");
}

#[test]
fn a_directory_lists_its_entries_in_order() {
    let root = dir(
        "root",
        vec![
            file("b.mp3", "b.mp3", Some(10), Some("d1")),
            dir("sub", vec![file("c.zip", "sub/c.zip", Some(2048), None)]),
            dir("empty", vec![]),
        ],
    );
    let mut html = String::new();
    render_html_recursive(&root, "/f", &mut html);
    let expected = format!(
        "<details open><summary>root</summary><ul><li><details open><summary>empty</summary><ul></ul></details></li><li><details open><summary>sub</summary><ul><li>{}</li></ul></details></li><li>{}</li></ul></details>",
        expected_row("📦", "/f", "sub/c.zip", "c.zip", "2.00 KB", "-", &hash_path("sub/c.zip")),
        expected_row("🎵", "/f", "b.mp3", "b.mp3", "10 B", "d1", &hash_path("b.mp3")),
    );
    assert_eq!(html, expected);
}

#[test]
fn a_root_without_a_name_shows_a_slash() {
    let root = TreeNode::Dir { name: None, children: vec![] };
    let mut html = String::new();
    render_html_recursive(&root, "/files", &mut html);
    assert_eq!(html, "<details open><summary>/</summary><ul></ul></details>");
}

#[test]
fn the_index_page_wraps_the_tree() {
    let root = dir("root", vec![]);
    let page = render_index_page(&root, "/files");
    assert!(page.starts_with("<!DOCTYPE html>\n<html lang=\"en\">"));
    assert!(page.contains(
        "<div id=\"tree-root\"><details open><summary>root</summary><ul></ul></details>        </div>"
    ));
    assert!(page.ends_with("</body>\n</html>"));
    assert!(page.contains("Generated by <code>tree</code> - Lightweight Directory Indexer"));
    assert!(page.contains("function copyLink(el)"));
}

#[test]
fn the_page_follows_the_dark_color_scheme() {
    let page = render_index_page(&dir("root", vec![]), "/files");
    let dark = page.find("@media (prefers-color-scheme: dark)").expect("dark theme rules");
    assert!(dark < page.find("</style>").unwrap());
    assert!(page.contains("body { color: #ddd; background-color: #121212; }"));
}

#[test]
fn the_page_shows_the_file_count_and_total_size() {
    let root = dir(
        "root",
        vec![
            file("b.mp3", "b.mp3", Some(1024), None),
            dir("sub", vec![file("c.zip", "sub/c.zip", Some(512), None), file("d", "sub/d", None, None)]),
            TreeNode::File { name: Some(b"x".to_vec()), rel_path: None, size: Some(99), modified: None },
        ],
    );
    let page = render_index_page(&root, "/files");
    assert!(page.contains(
        "<h1>Tree Index</h1>\n        <div class=\"stats\"><span id=\"file-count\">3</span> files, <span id=\"total-size\">1.50 KB</span> in total</div>\n        <div class=\"search-box\">"
    ));
    let empty = render_index_page(&dir("root", vec![]), "/files");
    assert!(empty.contains("<span id=\"file-count\">0</span> files, <span id=\"total-size\">0 B</span>"));
}

#[test]
fn tree_stats_sum_the_listed_files() {
    let root = dir(
        "root",
        vec![file("a", "a", Some(u64::MAX), None), file("b", "b", Some(5), None)],
    );
    assert_eq!(tree::dir_tree::tree_stats(&root), (2, u64::MAX));
    assert_eq!(tree::dir_tree::tree_stats(&dir("e", vec![])), (0, 0));
}

#[test]
fn entries_with_the_same_kind_and_name_keep_their_order() {
    let entries = vec![
        file("same", "one", None, None),
        dir("d", vec![]),
        file("same", "two", None, None),
    ];
    assert_eq!(listing_order(&entries), vec![1, 0, 2]);
}

#[test]
fn the_page_does_not_depend_on_read_order() {
    let a = || vec![
        file("b.txt", "b.txt", Some(1), None),
        dir("sub", vec![]),
        file("a.txt", "a.txt", Some(2), None),
    ];
    let mut reversed = a();
    reversed.reverse();
    let mut h1 = String::new();
    let mut h2 = String::new();
    render_html_recursive(&dir("root", a()), "/files", &mut h1);
    render_html_recursive(&dir("root", reversed), "/files", &mut h2);
    assert_eq!(h1, h2);
    assert_eq!(render_index_page(&dir("root", a()), "/f"), render_index_page(&dir("root", {
        let mut r = a();
        r.rotate_left(1);
        r
    }), "/f"));
}

#[test]
fn the_page_does_not_depend_on_read_order_at_any_depth() {
    let deep = |flip: bool| {
        let mut inner = vec![
            file("z.mp3", "top/inner/z.mp3", Some(3000), Some("2024-01-01 00:00")),
            dir("empty", vec![]),
            file("a.md", "top/inner/a.md", None, None),
        ];
        let mut top = vec![
            file("readme.txt", "top/readme.txt", Some(10), None),
            dir("inner", Vec::new()),
            file("Z.PNG", "top/Z.PNG", Some(2048), None),
        ];
        if flip {
            inner.reverse();
            top.rotate_left(2);
        }
        let pos = top.iter().position(|n| matches!(n, TreeNode::Dir { .. })).unwrap();
        top[pos] = dir("inner", inner);
        let mut root = vec![dir("top", top), file("root.rs", "root.rs", Some(5), None)];
        if flip {
            root.reverse();
        }
        dir("root", root)
    };
    let mut h1 = String::new();
    let mut h2 = String::new();
    render_html_recursive(&deep(false), "/files", &mut h1);
    render_html_recursive(&deep(true), "/files", &mut h2);
    assert_eq!(h1, h2);
    assert!(h1.find("empty").unwrap() < h1.find("a.md").unwrap());
    assert!(h1.find("a.md").unwrap() < h1.find("z.mp3").unwrap());
    assert_eq!(render_index_page(&deep(false), "/f"), render_index_page(&deep(true), "/f"));
}

#[test]
fn a_rows_short_id_redirects_to_its_link() {
    let node = file("x y.txt", "d/x y.txt", None, None);
    let mut html = String::new();
    render_html_recursive(&node, "/files", &mut html);
    let id = hash_path("d/x y.txt");
    assert!(html.contains(&format!("showQR('{}')", id)));
    let walked = vec![WalkedFile { rel_path: Some("d/x y.txt".to_string()), size: None, modified: None }];
    let location = find_short_link(&walked, &id, "/files").unwrap();
    assert!(html.contains(&format!("<a href=\"{}\">", location)));
    assert!(html.contains(&format!("data-link=\"{}\"", location)));
}
