use tree::links::{build_file_links, file_url, WalkedFile};

#[test]
fn file_urls() {
    assert_eq!(
        file_url("localhost:3000", "/files", "电影/泰坦尼克号.mp4"),
        "http://localhost:3000/files/%E7%94%B5%E5%BD%B1/%E6%B3%B0%E5%9D%A6%E5%B0%BC%E5%85%8B%E5%8F%B7.mp4"
    );
    assert_eq!(
        file_url("localhost:3000", "/files", "docs/说明文档.pdf"),
        "http://localhost:3000/files/docs/%E8%AF%B4%E6%98%8E%E6%96%87%E6%A1%A3.pdf"
    );
}

#[test]
fn listing_keeps_walk_order_and_fills_defaults() {
    let files = vec![
        WalkedFile {
            rel_path: Some("电影/泰坦尼克号.mp4".to_string()),
            size: Some(2147483648),
            modified: Some("2024-04-23 14:20:05".to_string()),
        },
        WalkedFile { rel_path: None, size: Some(1), modified: None },
        WalkedFile { rel_path: Some("docs/说明文档.pdf".to_string()), size: None, modified: None },
    ];
    let links = build_file_links("localhost:3000", "/files", &files);
    assert_eq!(links.len(), 2);
    assert_eq!(links[0].name, "电影/泰坦尼克号.mp4");
    assert_eq!(
        links[0].url,
        "http://localhost:3000/files/%E7%94%B5%E5%BD%B1/%E6%B3%B0%E5%9D%A6%E5%B0%BC%E5%85%8B%E5%8F%B7.mp4"
    );
    assert_eq!(links[0].size, 2147483648);
    assert_eq!(links[0].modified, "2024-04-23 14:20:05");
    assert_eq!(links[1].name, "docs/说明文档.pdf");
    assert_eq!(links[1].size, 0);
    assert_eq!(links[1].modified, "");
}

#[test]
fn empty_walk_gives_empty_listing() {
    assert!(build_file_links("h", "/files", &Vec::new()).is_empty());
}
