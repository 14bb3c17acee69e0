//! Short file ids: a stable 64-bit FNV-1a hash of the relative path, in
//! URL-safe base64, and the lookup that turns such an id back into the
//! location of the file.

use vstd::prelude::*;
use vstd::bytes::{spec_u64_to_le_bytes, u64_to_le_bytes};
use crate::links::{spec_file_url, WalkedFile};
use crate::dir_tree::{file_link, render_node, spec_file_row, TreeNode};
use crate::page::FILE_LINK_SLASH;
use crate::url_path::{encode_path, spec_encode_path};

verus! {

/// The FNV-1a 64-bit offset basis.
pub const FNV_OFFSET_BASIS: u64 = 0xcbf2_9ce4_8422_2325;

/// The FNV-1a 64-bit prime.
pub const FNV_PRIME: u64 = 0x100_0000_01b3;

/// The 64-bit FNV-1a hash of `bytes`: start from the offset basis, and for
/// each byte xor it in, then multiply by the prime modulo `2^64`.
pub open spec fn fnv1a(bytes: Seq<u8>) -> u64
    decreases bytes.len(),
{
    if bytes.len() == 0 {
        FNV_OFFSET_BASIS
    } else {
        vstd::wrapping::u64_specs::wrapping_mul(
            fnv1a(bytes.drop_last()) ^ (bytes.last() as u64),
            FNV_PRIME,
        )
    }
}

/// What `URL_SAFE_NO_PAD.encode` of the base64 crate gives for `bytes`.
pub uninterp spec fn base64_url_unpadded(bytes: Seq<u8>) -> Seq<char>;

/// A character of the URL-safe base64 alphabet: `A`-`Z`, `a`-`z`, `0`-`9`,
/// `-` and `_`.
pub open spec fn is_url_safe_base64_char(c: char) -> bool {
    ||| 'A' <= c <= 'Z'
    ||| 'a' <= c <= 'z'
    ||| '0' <= c <= '9'
    ||| c == '-'
    ||| c == '_'
}

/// The short id of a relative path: the URL-safe, unpadded base64 text of
/// the little-endian bytes of the FNV-1a hash of its UTF-8 bytes.
pub open spec fn spec_short_id(path: Seq<char>) -> Seq<char> {
    base64_url_unpadded(spec_u64_to_le_bytes(fnv1a(vstd::utf8::encode_utf8(path))))
}

/// Calls `Engine::encode` on the base64 crate's `URL_SAFE_NO_PAD` engine.
/// Stated: the text depends on the bytes alone, has `ceil(4n/3)` characters
/// for `n` bytes (no `=` padding), and uses only the URL-safe alphabet
/// (`A-Z a-z 0-9 - _`). The mapping of bits to characters is not written
/// out. The bound on the length keeps the crate's length computation, which
/// panics on overflow, from overflowing.
#[verifier::external_body]
fn encode_base64_url_unpadded(bytes: &[u8]) -> (s: String)
    requires
        bytes@.len() <= usize::MAX / 2,
    ensures
        s@ == base64_url_unpadded(bytes@),
        s@.len() == (4 * bytes@.len() + 2) / 3,
        forall|i: int| 0 <= i < s@.len() ==> is_url_safe_base64_char(#[trigger] s@[i]),
{
    base64::Engine::encode(&base64::engine::general_purpose::URL_SAFE_NO_PAD, bytes)
}

/// The 64-bit FNV-1a hash of `bytes`.
pub fn fnv1a_64(bytes: &[u8]) -> (h: u64)
    ensures
        h == fnv1a(bytes@),
{
    let mut hash: u64 = FNV_OFFSET_BASIS;
    let mut i: usize = 0;
    assert(bytes@.take(0) =~= Seq::<u8>::empty());
    while i < bytes.len()
        invariant
            i <= bytes@.len(),
            hash == fnv1a(bytes@.take(i as int)),
        decreases bytes@.len() - i,
    {
        assert(bytes@.take(i + 1).drop_last() =~= bytes@.take(i as int));
        hash = (hash ^ (bytes[i] as u64)).wrapping_mul(FNV_PRIME);
        i = i + 1;
    }
    assert(bytes@.take(i as int) =~= bytes@);
    hash
}

/// The short id of a relative path (see `spec_short_id`); the same path
/// always gives the same id, so ids need not be stored. The id has eleven
/// characters, all of the URL-safe base64 alphabet, so it stands in a URL
/// path segment as it is.
pub fn hash_path(path: &str) -> (id: String)
    ensures
        id@ == spec_short_id(path@),
        id@.len() == 11,
        forall|i: int| 0 <= i < id@.len() ==> is_url_safe_base64_char(#[trigger] id@[i]),
{
    let hash = fnv1a_64(path.as_bytes());
    let le = u64_to_le_bytes(hash);
    encode_base64_url_unpadded(le.as_slice())
}

/// Where a short link to the file at `path` redirects: the prefix, `/`, and
/// the encoded path.
pub open spec fn redirect_location(prefix: Seq<char>, path: Seq<char>) -> Seq<char> {
    prefix + seq!['/'] + spec_encode_path(path)
}

/// Whether a walked file has a relative path whose short id is `key`.
pub open spec fn matches_key(f: WalkedFile, key: Seq<char>) -> bool {
    &&& f.rel_path is Some
    &&& spec_short_id(f.rel_path->0@) == key
}

/// The location of the first walked file whose short id is `key`, if any.
pub open spec fn spec_find_short_link(
    files: Seq<WalkedFile>,
    key: Seq<char>,
    prefix: Seq<char>,
) -> Option<Seq<char>>
    decreases files.len(),
{
    if files.len() == 0 {
        None
    } else if matches_key(files[0], key) {
        Some(redirect_location(prefix, files[0].rel_path->0@))
    } else {
        spec_find_short_link(files.drop_first(), key, prefix)
    }
}

/// The redirect location for the short id `key`: the location of the first
/// file, in walking order, whose relative path has that id; `None` when no
/// file has it.
pub fn find_short_link(files: &Vec<WalkedFile>, key: &String, prefix: &str) -> (r: Option<String>)
    ensures
        r is None <==> spec_find_short_link(files@, key@, prefix@) is None,
        r matches Some(loc) ==> spec_find_short_link(files@, key@, prefix@) == Some(loc@),
{
    let mut i: usize = 0;
    assert(files@.skip(0) =~= files@);
    while i < files.len()
        invariant
            i <= files@.len(),
            spec_find_short_link(files@, key@, prefix@) == spec_find_short_link(
                files@.skip(i as int),
                key@,
                prefix@,
            ),
        decreases files@.len() - i,
    {
        assert(files@.skip(i as int).drop_first() =~= files@.skip(i + 1));
        assert(files@.skip(i as int)[0] == files@[i as int]);
        match &files[i].rel_path {
            Some(p) => {
                let id = hash_path(p.as_str());
                if id == *key {
                    let mut loc = String::new();
                    loc.append(prefix);
                    loc.push('/');
                    let enc = encode_path(p.as_str());
                    loc.append(enc.as_str());
                    assert(loc@ =~= redirect_location(prefix@, p@));
                    return Some(loc);
                }
            },
            None => {},
        }
        i = i + 1;
    }
    None
}

/// The lookup answers exactly for the files that have the id: when it finds
/// a location, that is the location of a walked file whose id is `key`, and
/// of the first such file; when it finds none, no walked file has the id.
pub proof fn law_short_link_lookup_is_exact(
    files: Seq<WalkedFile>,
    key: Seq<char>,
    prefix: Seq<char>,
)
    ensures
        spec_find_short_link(files, key, prefix) is None <==> forall|k: int|
            0 <= k < files.len() ==> !#[trigger] matches_key(files[k], key),
        spec_find_short_link(files, key, prefix) is Some ==> exists|j: int|
            0 <= j < files.len() && #[trigger] matches_key(files[j], key) && (forall|k: int|
                0 <= k < j ==> !#[trigger] matches_key(files[k], key))
                && spec_find_short_link(files, key, prefix) == Some(
                redirect_location(prefix, files[j].rel_path->0@),
            ),
    decreases files.len(),
{
    if files.len() > 0 {
        let rest = files.drop_first();
        law_short_link_lookup_is_exact(rest, key, prefix);
        if matches_key(files[0], key) {
            assert(matches_key(files[0], key));
        } else {
            assert forall|k: int| 0 <= k < files.len() && k > 0 implies #[trigger] files[k] == rest[k
                - 1] by {}
            if spec_find_short_link(rest, key, prefix) is Some {
                let j = choose|j: int|
                    0 <= j < rest.len() && #[trigger] matches_key(rest[j], key) && (forall|k: int|
                        0 <= k < j ==> !#[trigger] matches_key(rest[k], key))
                        && spec_find_short_link(rest, key, prefix) == Some(
                        redirect_location(prefix, rest[j].rel_path->0@),
                    );
                assert(files[j + 1] == rest[j]);
                assert forall|k: int| 0 <= k < j + 1 implies !#[trigger] matches_key(files[k], key) by {
                    if k > 0 {
                        assert(files[k] == rest[k - 1]);
                    }
                }
                assert(matches_key(files[j + 1], key));
            } else {
                assert forall|k: int| 0 <= k < files.len() implies !#[trigger] matches_key(
                    files[k],
                    key,
                ) by {
                    if k > 0 {
                        assert(files[k] == rest[k - 1]);
                    }
                }
            }
        }
    }
}

/// Every walked file's short id resolves: looking up the id of the file at
/// index `i` finds the location of the first walked file with that id,
/// which is the file itself when no earlier file shares its id.
pub proof fn law_short_link_resolves(files: Seq<WalkedFile>, i: int, prefix: Seq<char>)
    requires
        0 <= i < files.len(),
        files[i].rel_path is Some,
    ensures
        spec_find_short_link(files, spec_short_id(files[i].rel_path->0@), prefix) is Some,
        (forall|k: int|
            0 <= k < i ==> !#[trigger] matches_key(files[k], spec_short_id(files[i].rel_path->0@)))
            ==> spec_find_short_link(files, spec_short_id(files[i].rel_path->0@), prefix) == Some(
            redirect_location(prefix, files[i].rel_path->0@),
        ),
{
    let key = spec_short_id(files[i].rel_path->0@);
    assert(matches_key(files[i], key));
    law_short_link_lookup_is_exact(files, key, prefix);
    if spec_find_short_link(files, key, prefix) is Some {
        let j = choose|j: int|
            0 <= j < files.len() && #[trigger] matches_key(files[j], key) && (forall|k: int|
                0 <= k < j ==> !#[trigger] matches_key(files[k], key)) && spec_find_short_link(
                files,
                key,
                prefix,
            ) == Some(redirect_location(prefix, files[j].rel_path->0@));
        if forall|k: int| 0 <= k < i ==> !#[trigger] matches_key(files[k], key) {
            if j < i {
                assert(!matches_key(files[j], key));
            }
            if j > i {
                assert(!matches_key(files[i], key));
            }
        }
    }
}

/// A listing entry's short id leads to the entry's URL: unless an earlier
/// walked file shares the id, looking the id up gives the location that
/// the entry's URL ends with after `http://` and the host.
pub proof fn law_listing_entry_id_redirects_to_its_url(
    host: Seq<char>,
    prefix: Seq<char>,
    files: Seq<WalkedFile>,
    i: int,
)
    requires
        0 <= i < files.len(),
        files[i].rel_path is Some,
        forall|k: int|
            0 <= k < i ==> !#[trigger] matches_key(files[k], spec_short_id(files[i].rel_path->0@)),
    ensures
        spec_find_short_link(files, spec_short_id(files[i].rel_path->0@), prefix) == Some(
            redirect_location(prefix, files[i].rel_path->0@),
        ),
        spec_file_url(host, prefix, files[i].rel_path->0@) == "http://"@ + host + redirect_location(
            prefix,
            files[i].rel_path->0@,
        ),
{
    law_short_link_resolves(files, i, prefix);
    let p = files[i].rel_path->0@;
    assert(spec_file_url(host, prefix, p) =~= "http://"@ + host + redirect_location(prefix, p));
}

/// A file row's QR-code id leads to the row's link: the row shows the short
/// id of its relative path and links to `prefix/encoded path`, and, when the
/// walk reports that path with no earlier file sharing its id, looking the
/// id up gives that same link.
pub proof fn law_row_short_id_redirects_to_row_link(
    node: TreeNode,
    prefix: Seq<char>,
    files: Seq<WalkedFile>,
    i: int,
)
    requires
        node matches TreeNode::File { rel_path: Some(q), .. },
        0 <= i < files.len(),
        files[i].rel_path is Some,
        files[i].rel_path->0@ == node->File_rel_path->0@,
        forall|k: int|
            0 <= k < i ==> !#[trigger] matches_key(files[k], spec_short_id(files[i].rel_path->0@)),
    ensures
        ({
            let p = node->File_rel_path->0@;
            &&& exists|icon: Seq<char>, name: Seq<char>, size: Seq<char>, date: Seq<char>|
                render_node(node, prefix) == spec_file_row(
                    icon,
                    prefix,
                    spec_encode_path(p),
                    name,
                    size,
                    date,
                    spec_short_id(p),
                )
            &&& file_link(prefix, spec_encode_path(p)) == redirect_location(prefix, p)
            &&& spec_find_short_link(files, spec_short_id(p), prefix) == Some(
                file_link(prefix, spec_encode_path(p)),
            )
        }),
{
    law_short_link_resolves(files, i, prefix);
    let p = node->File_rel_path->0@;
    match node {
        TreeNode::File { name, rel_path, size, modified } => {
            let icon = crate::icon::icon_text(crate::icon::spec_file_kind(crate::dir_tree::node_name(node)));
            let nm = crate::dir_tree::display_name(name);
            let sz = crate::dir_tree::size_text(size);
            let dt = crate::dir_tree::date_text(modified);
            assert(render_node(node, prefix) == spec_file_row(
                icon,
                prefix,
                spec_encode_path(p),
                nm,
                sz,
                dt,
                spec_short_id(p),
            ));
        },
        _ => {},
    }
    reveal_strlit("/");
    assert(FILE_LINK_SLASH@ =~= seq!['/']);
    assert(file_link(prefix, spec_encode_path(p)) =~= redirect_location(prefix, p));
}

} // verus!
