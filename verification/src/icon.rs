//! File icons, chosen by the lower-cased extension of the file name.

use vstd::prelude::*;
use vstd::utf8::{decode_utf8, valid_utf8};
use crate::text::utf8_text;

verus! {

/// Video file extensions.
pub const VIDEO_EXTENSIONS: [&'static str; 9] = ["mp4", "mkv", "avi", "mov", "flv", "wmv", "webm", "mpg", "mpeg"];

/// Audio file extensions.
pub const AUDIO_EXTENSIONS: [&'static str; 7] = ["mp3", "wav", "flac", "ogg", "m4a", "aac", "wma"];

/// Image file extensions.
pub const IMAGE_EXTENSIONS: [&'static str; 8] = ["jpg", "jpeg", "png", "gif", "webp", "svg", "bmp", "ico"];

/// Office document extensions.
pub const DOCUMENT_EXTENSIONS: [&'static str; 7] = ["pdf", "doc", "docx", "xls", "xlsx", "ppt", "pptx"];

/// Plain text, configuration and source file extensions.
pub const TEXT_EXTENSIONS: [&'static str; 14] = [
    "txt",
    "md",
    "json",
    "xml",
    "yml",
    "yaml",
    "csv",
    "conf",
    "sh",
    "rs",
    "py",
    "js",
    "html",
    "css",
];

/// Archive extensions.
pub const ARCHIVE_EXTENSIONS: [&'static str; 7] = ["zip", "rar", "7z", "tar", "gz", "bz2", "xz"];

/// Installer and executable extensions.
pub const EXECUTABLE_EXTENSIONS: [&'static str; 5] = ["exe", "msi", "deb", "rpm", "apk"];

/// What kind of content a file holds, judged by its extension.
#[derive(Clone, Copy, Debug, PartialEq, Eq, Structural)]
pub enum FileKind {
    Video,
    Audio,
    Image,
    Document,
    Text,
    Archive,
    Executable,
    Other,
}

/// The icon shown for a kind of file.
pub open spec fn icon_text(kind: FileKind) -> Seq<char> {
    match kind {
        FileKind::Video => "🎬"@,
        FileKind::Audio => "🎵"@,
        FileKind::Image => "🖼️"@,
        FileKind::Document => "📄"@,
        FileKind::Text => "📝"@,
        FileKind::Archive => "📦"@,
        FileKind::Executable => "💿"@,
        FileKind::Other => "📄"@,
    }
}

impl FileKind {
    /// The icon shown for this kind of file.
    pub fn icon(&self) -> (s: &'static str)
        ensures
            s@ == icon_text(*self),
    {
        match self {
            FileKind::Video => "🎬",
            FileKind::Audio => "🎵",
            FileKind::Image => "🖼️",
            FileKind::Document => "📄",
            FileKind::Text => "📝",
            FileKind::Archive => "📦",
            FileKind::Executable => "💿",
            FileKind::Other => "📄",
        }
    }
}

/// Whether `e` is one of `words`.
pub open spec fn one_of(words: Seq<&str>, e: Seq<char>) -> bool {
    exists|i: int| 0 <= i < words.len() && (#[trigger] words[i])@ == e
}

/// The kind of a file with the (already lower-cased) extension `e`; the
/// lists are tried in order and an unknown extension is `Other`.
pub open spec fn spec_kind_of_extension(e: Seq<char>) -> FileKind {
    if one_of(VIDEO_EXTENSIONS@, e) {
        FileKind::Video
    } else if one_of(AUDIO_EXTENSIONS@, e) {
        FileKind::Audio
    } else if one_of(IMAGE_EXTENSIONS@, e) {
        FileKind::Image
    } else if one_of(DOCUMENT_EXTENSIONS@, e) {
        FileKind::Document
    } else if one_of(TEXT_EXTENSIONS@, e) {
        FileKind::Text
    } else if one_of(ARCHIVE_EXTENSIONS@, e) {
        FileKind::Archive
    } else if one_of(EXECUTABLE_EXTENSIONS@, e) {
        FileKind::Executable
    } else {
        FileKind::Other
    }
}

/// Whether `s` is one of `words`.
fn is_one_of(s: &String, words: &[&str]) -> (r: bool)
    ensures
        r == one_of(words@, s@),
{
    let mut i: usize = 0;
    while i < words.len()
        invariant
            i <= words@.len(),
            forall|k: int| 0 <= k < i ==> (#[trigger] words@[k])@ != s@,
        decreases words@.len() - i,
    {
        let w = words[i].to_owned();
        if w == *s {
            assert((words@[i as int])@ == s@);
            return true;
        }
        i = i + 1;
    }
    false
}

/// The kind of a file with the (already lower-cased) extension `ext`.
pub fn kind_of_extension(ext: &String) -> (k: FileKind)
    ensures
        k == spec_kind_of_extension(ext@),
{
    if is_one_of(ext, &VIDEO_EXTENSIONS) {
        FileKind::Video
    } else if is_one_of(ext, &AUDIO_EXTENSIONS) {
        FileKind::Audio
    } else if is_one_of(ext, &IMAGE_EXTENSIONS) {
        FileKind::Image
    } else if is_one_of(ext, &DOCUMENT_EXTENSIONS) {
        FileKind::Document
    } else if is_one_of(ext, &TEXT_EXTENSIONS) {
        FileKind::Text
    } else if is_one_of(ext, &ARCHIVE_EXTENSIONS) {
        FileKind::Archive
    } else if is_one_of(ext, &EXECUTABLE_EXTENSIONS) {
        FileKind::Executable
    } else {
        FileKind::Other
    }
}

/// The index of the last `.` in `name`, if any.
pub open spec fn last_dot(name: Seq<u8>) -> Option<int>
    decreases name.len(),
{
    if name.len() == 0 {
        None
    } else if name.last() == 0x2E {
        Some(name.len() - 1)
    } else {
        last_dot(name.drop_last())
    }
}

/// The extension of a file name, as a path's extension is taken: the bytes
/// after the last `.`; none when there is no `.`, when the only `.` starts
/// the name (`.bashrc`), and for `..`.
pub open spec fn spec_file_extension(name: Seq<u8>) -> Option<Seq<u8>> {
    if name == seq![0x2Eu8, 0x2Eu8] {
        None
    } else {
        match last_dot(name) {
            None => None,
            Some(i) => if i == 0 {
                None
            } else {
                Some(name.skip(i + 1))
            },
        }
    }
}

/// The extension as text: empty when there is none or it is not valid
/// UTF-8.
pub open spec fn extension_text(name: Seq<u8>) -> Seq<char> {
    match spec_file_extension(name) {
        Some(e) => if valid_utf8(e) {
            decode_utf8(e)
        } else {
            Seq::empty()
        },
        None => Seq::empty(),
    }
}

/// What `str::to_lowercase` gives for `s` (lower case by the Unicode
/// `Lowercase` property).
pub uninterp spec fn unicode_lowercase(s: Seq<char>) -> Seq<char>;

/// ASCII lower case of one character: `A`-`Z` become `a`-`z`, any other
/// character stays.
pub open spec fn ascii_lower(c: char) -> char {
    if 'A' <= c <= 'Z' {
        ((c as u32) + 32) as char
    } else {
        c
    }
}

/// ASCII lower case of a text.
pub open spec fn ascii_lowercase(s: Seq<char>) -> Seq<char> {
    s.map_values(|c: char| ascii_lower(c))
}

/// Calls `str::to_lowercase`. For ASCII text (the empty text included) the
/// result is the text with `A`-`Z` made `a`-`z` and every other character
/// kept, as the Unicode lower-case mapping of ASCII is; for other text only
/// that the result is a function of the text is claimed, the rest of the
/// Unicode case mapping is not written out here.
#[verifier::external_body]
fn lowercase(s: &str) -> (r: String)
    ensures
        r@ == unicode_lowercase(s@),
        vstd::utf8::is_ascii_chars(s@) ==> r@ == ascii_lowercase(s@),
{
    s.to_lowercase()
}

/// The lower case of an extension: ASCII lower case for ASCII text, the
/// Unicode lower case otherwise.
pub open spec fn lowercased(e: Seq<char>) -> Seq<char> {
    if vstd::utf8::is_ascii_chars(e) {
        ascii_lowercase(e)
    } else {
        unicode_lowercase(e)
    }
}

/// The kind of the file called `name` (empty when the path has no name):
/// judged by its lower-cased extension.
pub open spec fn spec_file_kind(name: Seq<u8>) -> FileKind {
    spec_kind_of_extension(lowercased(extension_text(name)))
}

/// The extension of the file called `name` (see `spec_file_extension`).
pub fn file_extension(name: &[u8]) -> (r: Option<&[u8]>)
    ensures
        r matches Some(e) ==> spec_file_extension(name@) == Some(e@),
        r is None <==> spec_file_extension(name@) is None,
{
    let n = name.len();
    if n == 2 && name[0] == 0x2E && name[1] == 0x2E {
        assert(name@ =~= seq![0x2Eu8, 0x2Eu8]);
        return None;
    }
    assert(name@ != seq![0x2Eu8, 0x2Eu8]) by {
        if name@ == seq![0x2Eu8, 0x2Eu8] {
            assert(name@[0] == 0x2E && name@[1] == 0x2E);
        }
    }
    assert(name@.take(n as int) =~= name@);
    let mut j: usize = n;
    while j > 0
        invariant
            j <= n == name@.len(),
            name@ != seq![0x2Eu8, 0x2Eu8],
            forall|k: int| j <= k < n ==> name@[k] != 0x2E,
            last_dot(name@) == last_dot(name@.take(j as int)),
        decreases j,
    {
        if name[j - 1] == 0x2E {
            assert(name@.take(j as int).last() == 0x2E);
            assert(last_dot(name@) == Some(j - 1));
            if j == 1 {
                return None;
            }
            assert((j - 1) as int + 1 == j as int);
            assert(spec_file_extension(name@) == Some(name@.skip(j as int)));
            let e = vstd::slice::slice_subrange(name, j, n);
            assert(e@ =~= name@.skip(j as int));
            return Some(e);
        }
        assert(name@.take(j as int).drop_last() =~= name@.take(j - 1));
        j = j - 1;
    }
    assert(last_dot(name@.take(0)) is None);
    None
}

/// The icon shown for the file called `name` (the bytes of the path's file
/// name, empty when the path has none): the icon of the kind that its
/// lower-cased extension gives.
pub fn get_file_icon(name: &[u8]) -> (icon: &'static str)
    ensures
        icon@ == icon_text(spec_file_kind(name@)),
{
    let ext: &str = match file_extension(name) {
        Some(e) => match utf8_text(e) {
            Some(t) => t,
            None => "",
        },
        None => "",
    };
    proof {
        reveal_strlit("");
    }
    assert(ext@ == extension_text(name@));
    let lower = lowercase(ext);
    let kind = kind_of_extension(&lower);
    kind.icon()
}

/// Every word of the list has at least one character.
spec fn words_nonempty(words: Seq<&str>) -> bool {
    forall|i: int| 0 <= i < words.len() ==> (#[trigger] words[i])@.len() > 0
}

proof fn lemma_nonempty_words_miss_empty(words: Seq<&str>)
    requires
        words_nonempty(words),
    ensures
        !one_of(words, Seq::empty()),
{
    assert forall|i: int| 0 <= i < words.len() implies (#[trigger] words[i])@ != Seq::<
        char,
    >::empty() by {
        assert(words[i]@.len() > 0);
    }
}

proof fn lemma_video_words_nonempty()
    ensures
        words_nonempty(VIDEO_EXTENSIONS@),
{
    reveal_strlit("mp4");
    reveal_strlit("mkv");
    reveal_strlit("avi");
    reveal_strlit("mov");
    reveal_strlit("flv");
    reveal_strlit("wmv");
    reveal_strlit("webm");
    reveal_strlit("mpg");
    reveal_strlit("mpeg");
    assert(VIDEO_EXTENSIONS@ =~= seq![
        "mp4",
        "mkv",
        "avi",
        "mov",
        "flv",
        "wmv",
        "webm",
        "mpg",
        "mpeg",
    ]);
}

proof fn lemma_audio_words_nonempty()
    ensures
        words_nonempty(AUDIO_EXTENSIONS@),
{
    reveal_strlit("mp3");
    reveal_strlit("wav");
    reveal_strlit("flac");
    reveal_strlit("ogg");
    reveal_strlit("m4a");
    reveal_strlit("aac");
    reveal_strlit("wma");
    assert(AUDIO_EXTENSIONS@ =~= seq!["mp3", "wav", "flac", "ogg", "m4a", "aac", "wma"]);
}

proof fn lemma_image_words_nonempty()
    ensures
        words_nonempty(IMAGE_EXTENSIONS@),
{
    reveal_strlit("jpg");
    reveal_strlit("jpeg");
    reveal_strlit("png");
    reveal_strlit("gif");
    reveal_strlit("webp");
    reveal_strlit("svg");
    reveal_strlit("bmp");
    reveal_strlit("ico");
    assert(IMAGE_EXTENSIONS@ =~= seq!["jpg", "jpeg", "png", "gif", "webp", "svg", "bmp", "ico"]);
}

proof fn lemma_document_words_nonempty()
    ensures
        words_nonempty(DOCUMENT_EXTENSIONS@),
{
    reveal_strlit("pdf");
    reveal_strlit("doc");
    reveal_strlit("docx");
    reveal_strlit("xls");
    reveal_strlit("xlsx");
    reveal_strlit("ppt");
    reveal_strlit("pptx");
    assert(DOCUMENT_EXTENSIONS@ =~= seq!["pdf", "doc", "docx", "xls", "xlsx", "ppt", "pptx"]);
}

proof fn lemma_text_words_nonempty()
    ensures
        words_nonempty(TEXT_EXTENSIONS@),
{
    reveal_strlit("txt");
    reveal_strlit("md");
    reveal_strlit("json");
    reveal_strlit("xml");
    reveal_strlit("yml");
    reveal_strlit("yaml");
    reveal_strlit("csv");
    reveal_strlit("conf");
    reveal_strlit("sh");
    reveal_strlit("rs");
    reveal_strlit("py");
    reveal_strlit("js");
    reveal_strlit("html");
    reveal_strlit("css");
    assert(TEXT_EXTENSIONS@ =~= seq![
        "txt",
        "md",
        "json",
        "xml",
        "yml",
        "yaml",
        "csv",
        "conf",
        "sh",
        "rs",
        "py",
        "js",
        "html",
        "css",
    ]);
}

proof fn lemma_archive_words_nonempty()
    ensures
        words_nonempty(ARCHIVE_EXTENSIONS@),
{
    reveal_strlit("zip");
    reveal_strlit("rar");
    reveal_strlit("7z");
    reveal_strlit("tar");
    reveal_strlit("gz");
    reveal_strlit("bz2");
    reveal_strlit("xz");
    assert(ARCHIVE_EXTENSIONS@ =~= seq!["zip", "rar", "7z", "tar", "gz", "bz2", "xz"]);
}

proof fn lemma_executable_words_nonempty()
    ensures
        words_nonempty(EXECUTABLE_EXTENSIONS@),
{
    reveal_strlit("exe");
    reveal_strlit("msi");
    reveal_strlit("deb");
    reveal_strlit("rpm");
    reveal_strlit("apk");
    assert(EXECUTABLE_EXTENSIONS@ =~= seq!["exe", "msi", "deb", "rpm", "apk"]);
}

proof fn lemma_no_kind_for_empty_extension()
    ensures
        spec_kind_of_extension(Seq::empty()) == FileKind::Other,
{
    lemma_video_words_nonempty();
    lemma_nonempty_words_miss_empty(VIDEO_EXTENSIONS@);
    lemma_audio_words_nonempty();
    lemma_nonempty_words_miss_empty(AUDIO_EXTENSIONS@);
    lemma_image_words_nonempty();
    lemma_nonempty_words_miss_empty(IMAGE_EXTENSIONS@);
    lemma_document_words_nonempty();
    lemma_nonempty_words_miss_empty(DOCUMENT_EXTENSIONS@);
    lemma_text_words_nonempty();
    lemma_nonempty_words_miss_empty(TEXT_EXTENSIONS@);
    lemma_archive_words_nonempty();
    lemma_nonempty_words_miss_empty(ARCHIVE_EXTENSIONS@);
    lemma_executable_words_nonempty();
    lemma_nonempty_words_miss_empty(EXECUTABLE_EXTENSIONS@);
}

/// The extension list of a kind (none for `Other`).
pub open spec fn words_of_kind(kind: FileKind) -> Seq<&'static str> {
    match kind {
        FileKind::Video => VIDEO_EXTENSIONS@,
        FileKind::Audio => AUDIO_EXTENSIONS@,
        FileKind::Image => IMAGE_EXTENSIONS@,
        FileKind::Document => DOCUMENT_EXTENSIONS@,
        FileKind::Text => TEXT_EXTENSIONS@,
        FileKind::Archive => ARCHIVE_EXTENSIONS@,
        FileKind::Executable => EXECUTABLE_EXTENSIONS@,
        FileKind::Other => Seq::empty(),
    }
}

/// Every extension on a list is recognized: it never falls to the default
/// icon (and, by `law_kind_comes_from_its_list`, the kind it gets is that of
/// a list it is on; no extension is on two lists).
pub proof fn law_listed_extensions_are_recognized()
    ensures
        forall|i: int|
            0 <= i < VIDEO_EXTENSIONS@.len() ==> spec_kind_of_extension(
                (#[trigger] VIDEO_EXTENSIONS@[i])@,
            ) != FileKind::Other,
        forall|i: int|
            0 <= i < AUDIO_EXTENSIONS@.len() ==> spec_kind_of_extension(
                (#[trigger] AUDIO_EXTENSIONS@[i])@,
            ) != FileKind::Other,
        forall|i: int|
            0 <= i < IMAGE_EXTENSIONS@.len() ==> spec_kind_of_extension(
                (#[trigger] IMAGE_EXTENSIONS@[i])@,
            ) != FileKind::Other,
        forall|i: int|
            0 <= i < DOCUMENT_EXTENSIONS@.len() ==> spec_kind_of_extension(
                (#[trigger] DOCUMENT_EXTENSIONS@[i])@,
            ) != FileKind::Other,
        forall|i: int|
            0 <= i < TEXT_EXTENSIONS@.len() ==> spec_kind_of_extension(
                (#[trigger] TEXT_EXTENSIONS@[i])@,
            ) != FileKind::Other,
        forall|i: int|
            0 <= i < ARCHIVE_EXTENSIONS@.len() ==> spec_kind_of_extension(
                (#[trigger] ARCHIVE_EXTENSIONS@[i])@,
            ) != FileKind::Other,
        forall|i: int|
            0 <= i < EXECUTABLE_EXTENSIONS@.len() ==> spec_kind_of_extension(
                (#[trigger] EXECUTABLE_EXTENSIONS@[i])@,
            ) != FileKind::Other,
{
    assert forall|i: int| 0 <= i < VIDEO_EXTENSIONS@.len() implies spec_kind_of_extension(
        (#[trigger] VIDEO_EXTENSIONS@[i])@,
    ) != FileKind::Other by {
        assert(one_of(VIDEO_EXTENSIONS@, VIDEO_EXTENSIONS@[i]@));
    }
    assert forall|i: int| 0 <= i < AUDIO_EXTENSIONS@.len() implies spec_kind_of_extension(
        (#[trigger] AUDIO_EXTENSIONS@[i])@,
    ) != FileKind::Other by {
        assert(one_of(AUDIO_EXTENSIONS@, AUDIO_EXTENSIONS@[i]@));
    }
    assert forall|i: int| 0 <= i < IMAGE_EXTENSIONS@.len() implies spec_kind_of_extension(
        (#[trigger] IMAGE_EXTENSIONS@[i])@,
    ) != FileKind::Other by {
        assert(one_of(IMAGE_EXTENSIONS@, IMAGE_EXTENSIONS@[i]@));
    }
    assert forall|i: int| 0 <= i < DOCUMENT_EXTENSIONS@.len() implies spec_kind_of_extension(
        (#[trigger] DOCUMENT_EXTENSIONS@[i])@,
    ) != FileKind::Other by {
        assert(one_of(DOCUMENT_EXTENSIONS@, DOCUMENT_EXTENSIONS@[i]@));
    }
    assert forall|i: int| 0 <= i < TEXT_EXTENSIONS@.len() implies spec_kind_of_extension(
        (#[trigger] TEXT_EXTENSIONS@[i])@,
    ) != FileKind::Other by {
        assert(one_of(TEXT_EXTENSIONS@, TEXT_EXTENSIONS@[i]@));
    }
    assert forall|i: int| 0 <= i < ARCHIVE_EXTENSIONS@.len() implies spec_kind_of_extension(
        (#[trigger] ARCHIVE_EXTENSIONS@[i])@,
    ) != FileKind::Other by {
        assert(one_of(ARCHIVE_EXTENSIONS@, ARCHIVE_EXTENSIONS@[i]@));
    }
    assert forall|i: int| 0 <= i < EXECUTABLE_EXTENSIONS@.len() implies spec_kind_of_extension(
        (#[trigger] EXECUTABLE_EXTENSIONS@[i])@,
    ) != FileKind::Other by {
        assert(one_of(EXECUTABLE_EXTENSIONS@, EXECUTABLE_EXTENSIONS@[i]@));
    }
}

/// An extension gets a kind other than `Other` only when it is on that
/// kind's list.
pub proof fn law_kind_comes_from_its_list(e: Seq<char>)
    ensures
        spec_kind_of_extension(e) != FileKind::Other ==> exists|i: int|
            0 <= i < words_of_kind(spec_kind_of_extension(e)).len() && (#[trigger] words_of_kind(
                spec_kind_of_extension(e),
            )[i])@ == e,
{
    let kind = spec_kind_of_extension(e);
    if kind != FileKind::Other {
        let words = words_of_kind(kind);
        assert(one_of(words, e));
        let i = choose|i: int| 0 <= i < words.len() && (#[trigger] words[i])@ == e;
        assert(0 <= i < words.len() && words[i]@ == e);
    }
}

/// Every word of a list is found on it.
pub proof fn law_listed_words_are_found(words: Seq<&str>, i: int)
    requires
        0 <= i < words.len(),
    ensures
        one_of(words, words[i]@),
{
}

/// A name with no extension (`README`, `.bashrc`), or whose extension is not
/// UTF-8 text, gets the default icon 📄.
pub proof fn law_default_icon_without_extension(name: Seq<u8>)
    requires
        spec_file_extension(name) matches Some(e) ==> !valid_utf8(e),
    ensures
        spec_file_kind(name) == FileKind::Other,
        icon_text(spec_file_kind(name)) == "📄"@,
{
    assert(extension_text(name) =~= Seq::<char>::empty());
    assert(vstd::utf8::is_ascii_chars(Seq::<char>::empty()));
    lemma_no_kind_for_empty_extension();
    assert(ascii_lowercase(Seq::<char>::empty()) =~= Seq::<char>::empty());
}

/// For an ASCII extension, letter case does not matter: the kind is the
/// kind of the ASCII lower-cased extension, so two names whose extensions
/// differ only in the case of ASCII letters get the same icon.
pub proof fn law_ascii_extensions_ignore_case(name1: Seq<u8>, name2: Seq<u8>)
    requires
        vstd::utf8::is_ascii_chars(extension_text(name1)),
        vstd::utf8::is_ascii_chars(extension_text(name2)),
        ascii_lowercase(extension_text(name1)) == ascii_lowercase(extension_text(name2)),
    ensures
        spec_file_kind(name1) == spec_kind_of_extension(ascii_lowercase(extension_text(name1))),
        spec_file_kind(name1) == spec_file_kind(name2),
{
}

} // verus!
