use tree::links::WalkedFile;
use tree::short_id::{find_short_link, fnv1a_64, hash_path};

fn file(path: &str) -> WalkedFile {
    WalkedFile { rel_path: Some(path.to_string()), size: None, modified: None }
}

#[test]
fn fnv1a_known_values() {
    assert_eq!(fnv1a_64(b""), 0xcbf29ce484222325);
    assert_eq!(fnv1a_64(b"a"), 0xaf63dc4c8601ec8c);
    assert_eq!(fnv1a_64(b"foobar"), 0x85944171f73967e8);
}

#[test]
fn short_ids_are_base64_of_the_hash() {
    assert_eq!(hash_path(""), "JSMihOSc8ss");
    assert_eq!(hash_path("a"), "jOwBhkzcY68");
    assert_eq!(hash_path("a.txt"), "Wr0bV7WC1X4");
    assert_eq!(hash_path("docs/readme.md"), "oBYt4hrRh4I");
    assert_eq!(hash_path("电影/泰坦尼克号.mp4"), "zk4AohmWy6E");
}

#[test]
fn short_ids_are_stable() {
    assert_eq!(hash_path("docs/readme.md"), hash_path("docs/readme.md"));
    assert_ne!(hash_path("docs/readme.md"), hash_path("docs/readme.mdx"));
}

#[test]
fn a_short_id_resolves_to_its_file() {
    let files = vec![
        file("a.txt"),
        WalkedFile { rel_path: None, size: Some(3), modified: None },
        file("电影/泰坦尼克号.mp4"),
    ];
    let key = hash_path("电影/泰坦尼克号.mp4");
    assert_eq!(
        find_short_link(&files, &key, "/files"),
        Some("/files/%E7%94%B5%E5%BD%B1/%E6%B3%B0%E5%9D%A6%E5%B0%BC%E5%85%8B%E5%8F%B7.mp4".to_string())
    );
    let key = hash_path("a.txt");
    assert_eq!(find_short_link(&files, &key, "/files"), Some("/files/a.txt".to_string()));
}

#[test]
fn an_unknown_short_id_finds_nothing() {
    let files = vec![file("a.txt"), file("b.txt")];
    assert_eq!(find_short_link(&files, &"nothing".to_string(), "/files"), None);
    assert_eq!(find_short_link(&Vec::new(), &hash_path("a.txt"), "/files"), None);
}

#[test]
fn the_first_file_with_the_id_wins() {
    let files = vec![file("same"), file("other"), file("same")];
    let key = hash_path("same");
    assert_eq!(find_short_link(&files, &key, "/p"), Some("/p/same".to_string()));
}
