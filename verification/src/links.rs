//! The JSON link listing: one entry per file found while walking the
//! served directory.

use vstd::prelude::*;
use crate::url_path::{encode_path, spec_encode_path};

verus! {

/// A file found while walking the served directory, as the walk reports it.
pub struct WalkedFile {
    /// The path relative to the served directory (lossily made text), or
    /// `None` when the file was not under it.
    pub rel_path: Option<String>,
    /// The length in bytes, or `None` when the metadata could not be read.
    pub size: Option<u64>,
    /// The local modification time as text, or `None` when unknown.
    pub modified: Option<String>,
}

/// One entry of the link listing.
pub struct FileLink {
    /// The relative path of the file.
    pub name: String,
    /// The direct URL of the file.
    pub url: String,
    /// The length in bytes (0 when unknown).
    pub size: u64,
    /// The local modification time as text (empty when unknown).
    pub modified: String,
}

impl View for FileLink {
    type V = (Seq<char>, Seq<char>, u64, Seq<char>);

    open spec fn view(&self) -> (Seq<char>, Seq<char>, u64, Seq<char>) {
        (self.name@, self.url@, self.size, self.modified@)
    }
}

/// The direct URL of a file: `http://`, the host, the prefix, `/` and the
/// encoded relative path.
pub open spec fn spec_file_url(host: Seq<char>, prefix: Seq<char>, path: Seq<char>) -> Seq<char> {
    "http://"@ + host + prefix + seq!['/'] + spec_encode_path(path)
}

/// The listing entry of a walked file that has a relative path.
pub open spec fn spec_file_link(host: Seq<char>, prefix: Seq<char>, f: WalkedFile) -> (
    Seq<char>,
    Seq<char>,
    u64,
    Seq<char>,
) {
    let path = f.rel_path->0@;
    (
        path,
        spec_file_url(host, prefix, path),
        match f.size {
            Some(n) => n,
            None => 0,
        },
        match f.modified {
            Some(m) => m@,
            None => Seq::empty(),
        },
    )
}

/// The listing: the entries of the walked files that have a relative path,
/// in walking order.
pub open spec fn spec_file_links(host: Seq<char>, prefix: Seq<char>, files: Seq<WalkedFile>) -> Seq<
    (Seq<char>, Seq<char>, u64, Seq<char>),
>
    decreases files.len(),
{
    if files.len() == 0 {
        Seq::empty()
    } else {
        let init = spec_file_links(host, prefix, files.drop_last());
        if files.last().rel_path is Some {
            init.push(spec_file_link(host, prefix, files.last()))
        } else {
            init
        }
    }
}

/// The direct URL of the file at `rel_path` (see `spec_file_url`).
pub fn file_url(host: &str, prefix: &str, rel_path: &str) -> (url: String)
    ensures
        url@ == spec_file_url(host@, prefix@, rel_path@),
{
    let mut url = String::new();
    url.append("http://");
    url.append(host);
    url.append(prefix);
    url.push('/');
    let enc = encode_path(rel_path);
    url.append(enc.as_str());
    assert(url@ =~= spec_file_url(host@, prefix@, rel_path@));
    url
}

/// The link listing of the walked files (see `spec_file_links`).
pub fn build_file_links(host: &str, prefix: &str, files: &Vec<WalkedFile>) -> (links: Vec<
    FileLink,
>)
    ensures
        links@.map_values(|l: FileLink| l@) == spec_file_links(host@, prefix@, files@),
{
    let mut links: Vec<FileLink> = Vec::new();
    let mut i: usize = 0;
    while i < files.len()
        invariant
            i <= files@.len(),
            links@.map_values(|l: FileLink| l@) == spec_file_links(
                host@,
                prefix@,
                files@.take(i as int),
            ),
        decreases files@.len() - i,
    {
        let ghost before = links@;
        assert(files@.take(i + 1).drop_last() =~= files@.take(i as int));
        assert(files@.take(i + 1).last() == files@[i as int]);
        let f = &files[i];
        match &f.rel_path {
            Some(p) => {
                let url = file_url(host, prefix, p.as_str());
                let size = match f.size {
                    Some(n) => n,
                    None => 0,
                };
                let modified = match &f.modified {
                    Some(m) => m.clone(),
                    None => String::new(),
                };
                links.push(FileLink { name: p.clone(), url, size, modified });
                assert(links@.map_values(|l: FileLink| l@) =~= before.map_values(
                    |l: FileLink| l@,
                ).push(spec_file_link(host@, prefix@, files@[i as int])));
            },
            None => {},
        }
        i = i + 1;
    }
    assert(files@.take(i as int) =~= files@);
    links
}

/// How many of the walked files have a relative path.
pub open spec fn count_with_path(files: Seq<WalkedFile>) -> nat
    decreases files.len(),
{
    if files.len() == 0 {
        0
    } else {
        count_with_path(files.drop_last()) + if files.last().rel_path is Some {
            1nat
        } else {
            0nat
        }
    }
}

proof fn lemma_count_prefix(files: Seq<WalkedFile>, j: int)
    requires
        0 <= j <= files.len(),
    ensures
        count_with_path(files.take(j)) <= count_with_path(files),
        j < files.len() && files[j].rel_path is Some ==> count_with_path(files.take(j)) + 1
            <= count_with_path(files),
    decreases files.len(),
{
    if j == files.len() {
        assert(files.take(j) =~= files);
    } else {
        let init = files.drop_last();
        if j < init.len() {
            lemma_count_prefix(init, j);
            assert(init.take(j) =~= files.take(j));
            assert(init[j] == files[j]);
        } else {
            assert(files.take(j) =~= init);
        }
    }
}

/// The listing has one entry for each walked file with a relative path, in
/// walking order (the entry of the file at `i` comes after the entries of
/// the earlier files that have one). Each entry holds the file's relative
/// path, its direct URL (`http://`, host, prefix, `/` and the encoded
/// path), its length in bytes exactly as the walk reported it (0 only when
/// unknown) and its modification time (empty when unknown).
pub proof fn law_listing_describes_each_file(
    host: Seq<char>,
    prefix: Seq<char>,
    files: Seq<WalkedFile>,
)
    ensures
        spec_file_links(host, prefix, files).len() == count_with_path(files),
        forall|i: int|
            0 <= i < files.len() && (#[trigger] files[i]).rel_path is Some ==> {
                let e = spec_file_links(host, prefix, files)[count_with_path(files.take(i)) as int];
                let path = files[i].rel_path->0@;
                &&& count_with_path(files.take(i)) < count_with_path(files)
                &&& e.0 == path
                &&& e.1 == "http://"@ + host + prefix + seq!['/'] + spec_encode_path(path)
                &&& (files[i].size matches Some(n) ==> e.2 == n)
                &&& (files[i].size is None ==> e.2 == 0)
                &&& (files[i].modified matches Some(m) ==> e.3 == m@)
                &&& (files[i].modified is None ==> e.3 == Seq::<char>::empty())
            },
    decreases files.len(),
{
    if files.len() > 0 {
        let init = files.drop_last();
        law_listing_describes_each_file(host, prefix, init);
        let links = spec_file_links(host, prefix, files);
        let before = spec_file_links(host, prefix, init);
        assert forall|i: int|
            0 <= i < files.len() && (#[trigger] files[i]).rel_path is Some implies {
                let e = links[count_with_path(files.take(i)) as int];
                let path = files[i].rel_path->0@;
                &&& count_with_path(files.take(i)) < count_with_path(files)
                &&& e.0 == path
                &&& e.1 == "http://"@ + host + prefix + seq!['/'] + spec_encode_path(path)
                &&& (files[i].size matches Some(n) ==> e.2 == n)
                &&& (files[i].size is None ==> e.2 == 0)
                &&& (files[i].modified matches Some(m) ==> e.3 == m@)
                &&& (files[i].modified is None ==> e.3 == Seq::<char>::empty())
            } by {
            lemma_count_prefix(files, i);
            if i < init.len() {
                assert(init.take(i) =~= files.take(i));
                assert(init[i] == files[i]);
                lemma_count_prefix(init, i);
            } else {
                assert(files.take(i) =~= init);
            }
        }
    }
}

} // verus!
