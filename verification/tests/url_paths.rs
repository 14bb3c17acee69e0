use percent_encoding::{percent_decode_str, utf8_percent_encode, AsciiSet, CONTROLS};
use tree::url_path::{encode_path, normalize_prefix};

const FRAGMENT: &AsciiSet = &CONTROLS.add(b' ').add(b'"').add(b'<').add(b'>').add(b'`');
const PATH_ENCODE_SET: &AsciiSet =
    &FRAGMENT.add(b'#').add(b'?').add(b'{').add(b'}').add(b'[').add(b']').add(b'^').add(b'|').add(b'%');

fn reference(path: &str) -> String {
    path.split(|c| c == '/' || c == '\\')
        .map(|segment| utf8_percent_encode(segment, PATH_ENCODE_SET).to_string())
        .collect::<Vec<_>>()
        .join("/")
}

#[test]
fn chinese_names_are_percent_encoded() {
    assert_eq!(
        encode_path("电影/泰坦尼克号.mp4"),
        "%E7%94%B5%E5%BD%B1/%E6%B3%B0%E5%9D%A6%E5%B0%BC%E5%85%8B%E5%8F%B7.mp4"
    );
    assert_eq!(encode_path("docs/说明文档.pdf"), "docs/%E8%AF%B4%E6%98%8E%E6%96%87%E6%A1%A3.pdf");
}

#[test]
fn special_characters_and_backslashes() {
    assert_eq!(encode_path("a b\\c#?.txt"), "a%20b/c%23%3F.txt");
    assert_eq!(encode_path("100%|[x]{y}^`\"<>"), "100%25%7C%5Bx%5D%7By%7D%5E%60%22%3C%3E");
    assert_eq!(encode_path("tab\there"), "tab%09here");
    assert_eq!(encode_path(""), "");
    assert_eq!(encode_path("/"), "/");
    assert_eq!(encode_path("a//b\\"), "a//b/");
}

#[test]
fn plain_paths_are_unchanged() {
    assert_eq!(encode_path("docs/readme-1.0_final~.txt"), "docs/readme-1.0_final~.txt");
}

#[test]
fn agrees_with_the_percent_encoding_crate() {
    let samples = [
        "电影/泰坦尼克号.mp4",
        "a b\\c#?.txt",
        "x\u{7f}y\u{1}z",
        "é/ü\\ß",
        "🎬 film.mkv",
        "!$&'()*+,;=:@",
        "",
    ];
    for s in samples {
        assert_eq!(encode_path(s), reference(s), "path {:?}", s);
    }
    for b in 0u32..0x800 {
        if let Some(c) = char::from_u32(b) {
            let s = format!("a{}b", c);
            assert_eq!(encode_path(&s), reference(&s), "char {:?}", c);
        }
    }
}

#[test]
fn prefixes_are_normalized() {
    assert_eq!(normalize_prefix("/files"), "/files");
    assert_eq!(normalize_prefix("files"), "/files");
    assert_eq!(normalize_prefix("/files/"), "/files");
    assert_eq!(normalize_prefix("files/"), "/files");
    assert_eq!(normalize_prefix("/"), "/");
    assert_eq!(normalize_prefix(""), "/");
    assert_eq!(normalize_prefix("//"), "/");
    assert_eq!(normalize_prefix("/a//"), "/a/");
    assert_eq!(normalize_prefix("文件/"), "/文件");
}

#[test]
fn encoded_paths_decode_back() {
    let samples = ["电影/泰坦尼克号.mp4", "a b\\c#?.txt", "100%|[x]", "tab\there", "plain/path.txt", ""];
    for s in samples {
        let decoded = percent_decode_str(&encode_path(s)).decode_utf8().unwrap().into_owned();
        assert_eq!(decoded, s.replace('\\', "/"), "path {:?}", s);
    }
}

#[test]
fn safe_paths_are_left_as_they_are() {
    for s in ["", "a//b", "docs/x-1_2.txt", "/", "A~b!c$d&e'f(g)h*i+j,k;l=m:n@o"] {
        assert_eq!(encode_path(s), s);
    }
}

#[test]
fn encoded_paths_decode_segment_by_segment() {
    let samples = ["电影/泰坦尼克号.mp4", "a b\\c#?.txt", "x/%2F/y", "\\lead//two\\", "100%|[x]", ""];
    for s in samples {
        let encoded = encode_path(s);
        let pieces: Vec<String> = encoded
            .split('/')
            .map(|p| percent_decode_str(p).decode_utf8().unwrap().into_owned())
            .collect();
        let segments: Vec<String> = s.split(|c| c == '/' || c == '\\').map(|p| p.to_string()).collect();
        assert_eq!(pieces, segments, "path {:?}", s);
    }
    let pieces: Vec<String> = encode_path("x/%2F/y").split('/').map(|p| p.to_string()).collect();
    assert_eq!(pieces, vec!["x", "%252F", "y"]);
}
