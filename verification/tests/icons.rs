use std::path::Path;
use tree::icon::{file_extension, get_file_icon, kind_of_extension, FileKind};

#[test]
fn icons_by_extension() {
    assert_eq!(get_file_icon(b"movie.mp4"), "🎬");
    assert_eq!(get_file_icon(b"song.flac"), "🎵");
    assert_eq!(get_file_icon(b"photo.jpeg"), "🖼️");
    assert_eq!(get_file_icon(b"report.pdf"), "📄");
    assert_eq!(get_file_icon(b"main.rs"), "📝");
    assert_eq!(get_file_icon(b"backup.tar.gz"), "📦");
    assert_eq!(get_file_icon(b"setup.exe"), "💿");
    assert_eq!(get_file_icon(b"unknown.xyz"), "📄");
}

#[test]
fn extensions_are_case_insensitive() {
    assert_eq!(get_file_icon(b"MOVIE.MP4"), "🎬");
    assert_eq!(get_file_icon(b"Photo.JPeG"), "🖼️");
    assert_eq!(get_file_icon(b"README.MD"), "📝");
}

#[test]
fn names_without_an_extension() {
    assert_eq!(get_file_icon(b"Makefile"), "📄");
    assert_eq!(get_file_icon(b".bashrc"), "📄");
    assert_eq!(get_file_icon(b".mp4"), "📄");
    assert_eq!(get_file_icon(b"trailing."), "📄");
    assert_eq!(get_file_icon(b".."), "📄");
    assert_eq!(get_file_icon(b""), "📄");
}

#[test]
fn only_the_extension_needs_to_be_text() {
    assert_eq!(get_file_icon(b"\xff\xfe.mp3"), "🎵");
    assert_eq!(get_file_icon(b"song.\xff"), "📄");
}

#[test]
fn extension_matches_path_extension() {
    let names = ["a.txt", ".bashrc", "..", "...", "a.", "..mp3", "a.b.c", "noext", "x..y", "résumé.pdf"];
    for n in names {
        let expected = Path::new(n).extension().map(|e| e.to_str().unwrap().as_bytes().to_vec());
        assert_eq!(file_extension(n.as_bytes()).map(|e| e.to_vec()), expected, "name {:?}", n);
    }
    assert_eq!(file_extension(b""), None);
    assert_eq!(file_extension(b"."), None);
    assert_eq!(file_extension(b"\xff.\xfe"), Some(&b"\xfe"[..]));
}

#[test]
fn kinds_of_lowercase_extensions() {
    assert_eq!(kind_of_extension(&"mkv".to_string()), FileKind::Video);
    assert_eq!(kind_of_extension(&"7z".to_string()), FileKind::Archive);
    assert_eq!(kind_of_extension(&"MKV".to_string()), FileKind::Other);
    assert_eq!(kind_of_extension(&"".to_string()), FileKind::Other);
    assert_eq!(FileKind::Text.icon(), "📝");
}

#[test]
fn ascii_extension_case_does_not_matter() {
    for (a, b) in [("x.ZIP", "x.zip"), ("y.Mp3", "y.mP3"), ("z.TXT", "z.txt"), ("w.ABC", "w.abc")] {
        assert_eq!(get_file_icon(a.as_bytes()), get_file_icon(b.as_bytes()));
    }
}
