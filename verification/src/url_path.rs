//! Turning file paths into URL paths, and the normal form of the URL prefix
//! under which the files are served.

use vstd::prelude::*;
use crate::text::{chars_of, push_chars};

verus! {

/// A byte that separates path segments: `/` or `\`.
pub open spec fn is_separator(b: u8) -> bool {
    b == 0x2F || b == 0x5C
}

/// The ASCII bytes that a path segment percent-encodes: the C0 controls and
/// DEL, and `space " < > ` # ? { } [ ] ^ | %`.
pub open spec fn in_path_encode_set(b: u8) -> bool {
    ||| b <= 0x1F
    ||| b == 0x7F
    ||| b == 0x20
    ||| b == 0x22
    ||| b == 0x3C
    ||| b == 0x3E
    ||| b == 0x60
    ||| b == 0x23
    ||| b == 0x3F
    ||| b == 0x7B
    ||| b == 0x7D
    ||| b == 0x5B
    ||| b == 0x5D
    ||| b == 0x5E
    ||| b == 0x7C
    ||| b == 0x25
}

/// A byte of a segment is written as `%XX` when it is not ASCII or is in the
/// path encode set.
pub open spec fn needs_percent(b: u8) -> bool {
    b >= 0x80 || in_path_encode_set(b)
}

/// The upper-case hexadecimal digit for `d` (below sixteen).
pub open spec fn hex_upper(d: nat) -> char {
    if d < 10 {
        (48 + d) as char
    } else {
        (55 + d) as char
    }
}

/// `%` followed by the two upper-case hexadecimal digits of `b`.
pub open spec fn percent_triple(b: u8) -> Seq<char> {
    seq!['%', hex_upper((b / 16) as nat), hex_upper((b % 16) as nat)]
}

/// How one byte of a segment appears in the encoded segment.
pub open spec fn encode_byte(b: u8) -> Seq<char> {
    if needs_percent(b) {
        percent_triple(b)
    } else {
        seq![b as char]
    }
}

/// The percent-encoding of the bytes of one segment.
pub open spec fn percent_encode_bytes(bytes: Seq<u8>) -> Seq<char>
    decreases bytes.len(),
{
    if bytes.len() == 0 {
        Seq::empty()
    } else {
        percent_encode_bytes(bytes.drop_last()) + encode_byte(bytes.last())
    }
}

/// The segments between separators, in order; `n` separators give `n + 1`
/// segments, some of which may be empty.
pub open spec fn split_segments(bytes: Seq<u8>) -> Seq<Seq<u8>>
    decreases bytes.len(),
{
    if bytes.len() == 0 {
        seq![Seq::empty()]
    } else {
        let init = split_segments(bytes.drop_last());
        if is_separator(bytes.last()) {
            init.push(Seq::empty())
        } else {
            init.update(init.len() - 1, init.last().push(bytes.last()))
        }
    }
}

/// The parts joined with `/` between each two of them.
pub open spec fn join_with_slash(parts: Seq<Seq<char>>) -> Seq<char>
    decreases parts.len(),
{
    if parts.len() == 0 {
        Seq::empty()
    } else if parts.len() == 1 {
        parts[0]
    } else {
        join_with_slash(parts.drop_last()) + seq!['/'] + parts.last()
    }
}

/// The URL path of a file path: the UTF-8 bytes of the path are split at
/// each `/` and `\`, each segment is percent-encoded, and the encoded
/// segments are joined with `/`.
pub open spec fn spec_encode_path(path: Seq<char>) -> Seq<char> {
    join_with_slash(
        split_segments(vstd::utf8::encode_utf8(path)).map_values(
            |seg: Seq<u8>| percent_encode_bytes(seg),
        ),
    )
}

/// The same text, written byte by byte: a separator becomes `/`, any other
/// byte its encoding.
pub open spec fn bytewise_encoding(bytes: Seq<u8>) -> Seq<char>
    decreases bytes.len(),
{
    if bytes.len() == 0 {
        Seq::empty()
    } else {
        bytewise_encoding(bytes.drop_last()) + if is_separator(bytes.last()) {
            seq!['/']
        } else {
            encode_byte(bytes.last())
        }
    }
}

proof fn lemma_split_nonempty(bytes: Seq<u8>)
    ensures
        split_segments(bytes).len() >= 1,
    decreases bytes.len(),
{
    if bytes.len() > 0 {
        lemma_split_nonempty(bytes.drop_last());
    }
}

proof fn lemma_join_extend_last(parts: Seq<Seq<char>>, x: Seq<char>)
    requires
        parts.len() >= 1,
    ensures
        join_with_slash(parts.update(parts.len() - 1, parts.last() + x)) == join_with_slash(parts)
            + x,
{
    let upd = parts.update(parts.len() - 1, parts.last() + x);
    if parts.len() == 1 {
        assert(join_with_slash(upd) == upd[0]);
    } else {
        assert(upd.drop_last() =~= parts.drop_last());
        assert(join_with_slash(upd) =~= join_with_slash(parts) + x);
    }
}

proof fn lemma_bytewise_is_split_join(bytes: Seq<u8>)
    ensures
        bytewise_encoding(bytes) == join_with_slash(
            split_segments(bytes).map_values(|seg: Seq<u8>| percent_encode_bytes(seg)),
        ),
    decreases bytes.len(),
{
    let f = |seg: Seq<u8>| percent_encode_bytes(seg);
    if bytes.len() == 0 {
        let parts = split_segments(bytes).map_values(f);
        assert(parts.len() == 1);
        assert(parts[0] == percent_encode_bytes(Seq::<u8>::empty()));
    } else {
        let init = bytes.drop_last();
        let b = bytes.last();
        lemma_bytewise_is_split_join(init);
        lemma_split_nonempty(init);
        let segs = split_segments(init);
        let parts = segs.map_values(f);
        if is_separator(b) {
            let new_parts = segs.push(Seq::empty()).map_values(f);
            assert(new_parts.drop_last() =~= parts);
            assert(new_parts.last() == percent_encode_bytes(Seq::<u8>::empty()));
            assert(join_with_slash(new_parts) =~= join_with_slash(parts) + seq!['/']);
        } else {
            let last = segs.last();
            let new_segs = segs.update(segs.len() - 1, last.push(b));
            let new_parts = new_segs.map_values(f);
            assert(last.push(b).drop_last() =~= last);
            assert(percent_encode_bytes(last.push(b)) == percent_encode_bytes(last) + encode_byte(b));
            assert(new_parts =~= parts.update(parts.len() - 1, parts.last() + encode_byte(b)));
            lemma_join_extend_last(parts, encode_byte(b));
        }
    }
}

/// Calls `percent_encoding::percent_encode_byte`, which gives `%` and the two
/// upper-case hexadecimal digits of the byte.
#[verifier::external_body]
fn percent_encoded_byte(byte: u8) -> (s: &'static str)
    ensures
        s@ == percent_triple(byte),
{
    percent_encoding::percent_encode_byte(byte)
}

/// Whether a segment byte is written as `%XX`.
fn byte_needs_percent(b: u8) -> (r: bool)
    ensures
        r == needs_percent(b),
{
    b >= 0x80 || b <= 0x1F || b == 0x7F || b == 0x20 || b == 0x22 || b == 0x3C || b == 0x3E || b
        == 0x60 || b == 0x23 || b == 0x3F || b == 0x7B || b == 0x7D || b == 0x5B || b == 0x5D || b
        == 0x5E || b == 0x7C || b == 0x25
}

/// The URL path of a file path: split at every `/` and `\`, each segment
/// percent-encoded (non-ASCII bytes, controls and `space " < > ` # ? { } [ ] ^ | %`),
/// joined again with `/`.
pub fn encode_path(path: &str) -> (r: String)
    ensures
        r@ == spec_encode_path(path@),
{
    let bytes = path.as_bytes();
    let mut out = String::new();
    let mut i: usize = 0;
    while i < bytes.len()
        invariant
            i <= bytes@.len(),
            bytes@ == vstd::utf8::encode_utf8(path@),
            out@ == bytewise_encoding(bytes@.take(i as int)),
        decreases bytes@.len() - i,
    {
        let b = bytes[i];
        assert(bytes@.take(i + 1).drop_last() =~= bytes@.take(i as int));
        if b == 0x2F || b == 0x5C {
            out.push('/');
        } else if byte_needs_percent(b) {
            let enc = percent_encoded_byte(b);
            out.append(enc);
        } else {
            out.push(b as char);
        }
        i = i + 1;
    }
    proof {
        assert(bytes@.take(i as int) =~= bytes@);
        lemma_bytewise_is_split_join(bytes@);
    }
    out
}

/// A character that may stand in a URL path as it is: printable ASCII
/// other than space, `" < > ` # ? { } [ ] ^ |` and `\`.
pub open spec fn url_path_safe(c: char) -> bool {
    &&& '!' <= c <= '~'
    &&& c != '"' && c != '<' && c != '>' && c != '`'
    &&& c != '#' && c != '?' && c != '{' && c != '}'
    &&& c != '[' && c != ']' && c != '^' && c != '|' && c != '\\'
}

proof fn lemma_bytewise_safe(bytes: Seq<u8>)
    ensures
        forall|i: int|
            0 <= i < bytewise_encoding(bytes).len() ==> url_path_safe(
                #[trigger] bytewise_encoding(bytes)[i],
            ),
    decreases bytes.len(),
{
    if bytes.len() > 0 {
        let init = bytes.drop_last();
        let b = bytes.last();
        lemma_bytewise_safe(init);
        let piece = if is_separator(b) {
            seq!['/']
        } else {
            encode_byte(b)
        };
        assert forall|i: int| 0 <= i < piece.len() implies url_path_safe(#[trigger] piece[i]) by {
            if !is_separator(b) && needs_percent(b) {
                let hi = (b / 16) as nat;
                let lo = (b % 16) as nat;
                assert(hi < 16 && lo < 16);
            }
        }
        let whole = bytewise_encoding(bytes);
        assert(whole =~= bytewise_encoding(init) + piece);
        assert forall|i: int| 0 <= i < whole.len() implies url_path_safe(#[trigger] whole[i]) by {
            if i >= bytewise_encoding(init).len() {
                assert(whole[i] == piece[i - bytewise_encoding(init).len()]);
            } else {
                assert(whole[i] == bytewise_encoding(init)[i]);
            }
        }
    }
}

/// Every character of an encoded path may stand in a URL path as it is:
/// spaces, controls, non-ASCII characters and the characters with a meaning
/// in URLs are all percent-encoded, and backslashes become `/`.
pub proof fn law_encoded_path_is_url_safe(path: Seq<char>)
    ensures
        forall|i: int|
            0 <= i < spec_encode_path(path).len() ==> url_path_safe(
                #[trigger] spec_encode_path(path)[i],
            ),
{
    let bytes = vstd::utf8::encode_utf8(path);
    lemma_bytewise_is_split_join(bytes);
    lemma_bytewise_safe(bytes);
}

/// A hexadecimal digit, either case.
pub open spec fn is_hex_digit(c: char) -> bool {
    let u = c as u32;
    (0x30 <= u <= 0x39) || (0x41 <= u <= 0x46) || (0x61 <= u <= 0x66)
}

/// The value of a hexadecimal digit.
pub open spec fn hex_value(c: char) -> int {
    let u = c as u32;
    if u <= 0x39 {
        u - 0x30
    } else if u <= 0x46 {
        u - 0x37
    } else {
        u - 0x57
    }
}

/// Percent-decoding of URL text into bytes: `%` followed by two hexadecimal
/// digits is the byte they give; any other character stands for itself.
pub open spec fn percent_decode(s: Seq<char>) -> Seq<u8>
    decreases s.len(),
{
    if s.len() == 0 {
        Seq::empty()
    } else if s.len() >= 3 && s[0] == '%' && is_hex_digit(s[1]) && is_hex_digit(s[2]) {
        seq![(hex_value(s[1]) * 16 + hex_value(s[2])) as u8] + percent_decode(s.skip(3))
    } else {
        seq![s[0] as u8] + percent_decode(s.skip(1))
    }
}

/// The bytes of a path with each `\` made `/`.
pub open spec fn slashed_bytes(bytes: Seq<u8>) -> Seq<u8> {
    bytes.map_values(|b: u8| if is_separator(b) { 0x2Fu8 } else { b })
}

/// The encoding of one byte of the path.
pub open spec fn piece_of(b: u8) -> Seq<char> {
    if is_separator(b) {
        seq!['/']
    } else {
        encode_byte(b)
    }
}

proof fn lemma_bytewise_prepend(b: u8, rest: Seq<u8>)
    ensures
        bytewise_encoding(seq![b] + rest) == piece_of(b) + bytewise_encoding(rest),
    decreases rest.len(),
{
    let whole = seq![b] + rest;
    if rest.len() == 0 {
        assert(whole.drop_last() =~= Seq::<u8>::empty());
        assert(whole.last() == b);
        assert(bytewise_encoding(Seq::<u8>::empty()) == Seq::<char>::empty());
        assert(bytewise_encoding(whole) =~= piece_of(b));
    } else {
        assert(whole.drop_last() =~= seq![b] + rest.drop_last());
        assert(whole.last() == rest.last());
        lemma_bytewise_prepend(b, rest.drop_last());
        assert(bytewise_encoding(whole) =~= piece_of(b) + bytewise_encoding(rest));
    }
}

proof fn lemma_decode_piece(b: u8, tail: Seq<char>)
    ensures
        percent_decode(piece_of(b) + tail) == seq![if is_separator(b) { 0x2Fu8 } else { b }]
            + percent_decode(tail),
{
    let s = piece_of(b) + tail;
    if is_separator(b) {
        assert(s.skip(1) =~= tail);
    } else if needs_percent(b) {
        let hi = (b / 16) as nat;
        let lo = (b % 16) as nat;
        assert(hex_value(hex_upper(hi)) == hi);
        assert(hex_value(hex_upper(lo)) == lo);
        assert(s.skip(3) =~= tail);
        assert(hi * 16 + lo == b);
    } else {
        assert(s[0] == b as char);
        assert(s.skip(1) =~= tail);
    }
}

proof fn lemma_decode_bytewise(bytes: Seq<u8>)
    ensures
        percent_decode(bytewise_encoding(bytes)) == slashed_bytes(bytes),
    decreases bytes.len(),
{
    if bytes.len() == 0 {
        assert(slashed_bytes(bytes) =~= Seq::<u8>::empty());
    } else {
        let b = bytes[0];
        let rest = bytes.drop_first();
        assert(bytes =~= seq![b] + rest);
        lemma_bytewise_prepend(b, rest);
        lemma_decode_piece(b, bytewise_encoding(rest));
        lemma_decode_bytewise(rest);
        assert(slashed_bytes(bytes) =~= seq![if is_separator(b) { 0x2Fu8 } else { b }]
            + slashed_bytes(rest));
    }
}

/// Encoding loses nothing but the kind of separator: percent-decoding an
/// encoded path gives back the UTF-8 bytes of the path, with every `\`
/// turned into `/`.
pub proof fn law_encoded_path_decodes_to_path(path: Seq<char>)
    ensures
        percent_decode(spec_encode_path(path)) == slashed_bytes(vstd::utf8::encode_utf8(path)),
{
    let bytes = vstd::utf8::encode_utf8(path);
    lemma_bytewise_is_split_join(bytes);
    lemma_decode_bytewise(bytes);
}

/// A character that a path keeps as it is: `/`, or a URL-safe character
/// other than `%`.
pub open spec fn kept_as_is(c: char) -> bool {
    c == '/' || (url_path_safe(c) && c != '%')
}

proof fn lemma_bytewise_of_kept(bytes: Seq<u8>)
    requires
        forall|i: int| 0 <= i < bytes.len() ==> kept_as_is(#[trigger] bytes[i] as char),
    ensures
        bytewise_encoding(bytes) == bytes.map_values(|b: u8| b as char),
    decreases bytes.len(),
{
    if bytes.len() > 0 {
        let init = bytes.drop_last();
        assert forall|i: int| 0 <= i < init.len() implies kept_as_is(#[trigger] init[i] as char) by {
            assert(init[i] == bytes[i]);
        }
        lemma_bytewise_of_kept(init);
        let b = bytes.last();
        assert(kept_as_is(bytes[bytes.len() - 1] as char));
        assert(bytewise_encoding(bytes) =~= bytes.map_values(|b: u8| b as char));
    }
}

/// A path made only of `/` and characters that may stand in a URL as they
/// are (other than `%`) is left unchanged, empty segments included.
pub proof fn law_safe_path_is_unchanged(path: Seq<char>)
    requires
        forall|i: int| 0 <= i < path.len() ==> kept_as_is(#[trigger] path[i]),
    ensures
        spec_encode_path(path) == path,
{
    assert(vstd::utf8::is_ascii_chars(path)) by {
        assert forall|i: int| 0 <= i < path.len() implies '\0' <= #[trigger] path[i] <= '\u{7f}' by {
            assert(kept_as_is(path[i]));
        }
    }
    vstd::utf8::is_ascii_chars_encode_utf8(path);
    let bytes = vstd::utf8::encode_utf8(path);
    assert forall|i: int| 0 <= i < bytes.len() implies kept_as_is(#[trigger] bytes[i] as char) by {
        assert(path[i] as u8 == bytes[i]);
        assert(kept_as_is(path[i]));
    }
    lemma_bytewise_of_kept(bytes);
    lemma_bytewise_is_split_join(bytes);
    assert(bytes.map_values(|b: u8| b as char) =~= path) by {
        assert forall|i: int| 0 <= i < path.len() implies bytes.map_values(|b: u8| b as char)[i]
            == path[i] by {
            assert(path[i] as u8 == bytes[i]);
            assert(kept_as_is(path[i]));
        }
    }
}

/// A path with each `\` turned into `/`.
pub open spec fn slashed_chars(path: Seq<char>) -> Seq<char> {
    path.map_values(|c: char| if c == '\\' { '/' } else { c })
}

proof fn lemma_high_bytes(x: u8)
    by (bit_vector)
    ensures
        (0x80u8 | x) >= 0x80u8,
        (0xC0u8 | x) >= 0x80u8,
        (0xE0u8 | x) >= 0x80u8,
        (0xF0u8 | x) >= 0x80u8,
{
}

proof fn lemma_low_scalar(v: u32)
    by (bit_vector)
    requires
        v <= 0x7F,
    ensures
        (v & 0x7F) == v,
{
}

proof fn lemma_slashed_scalar(c: char)
    ensures
        slashed_bytes(vstd::utf8::encode_scalar(c as u32)) == vstd::utf8::encode_scalar(
            (if c == '\\' {
                '/'
            } else {
                c
            }) as u32,
        ),
{
    let v = c as u32;
    let enc = vstd::utf8::encode_scalar(v);
    if vstd::utf8::has_width_1_encoding(v) {
        lemma_low_scalar(v);
        assert(enc[0] == v as u8);
        if c == '\\' {
            lemma_low_scalar(0x2F);
            assert(slashed_bytes(enc) =~= vstd::utf8::encode_scalar(0x2F));
            assert(('/' as u32) == 0x2F);
        } else {
            assert(slashed_bytes(enc) =~= enc);
        }
    } else {
        assert(c != '\\');
        lemma_high_bytes(((v >> 6) & 0x1F) as u8);
        lemma_high_bytes(((v >> 12) & 0x0F) as u8);
        lemma_high_bytes(((v >> 18) & 0x7) as u8);
        lemma_high_bytes((v & 0x3F) as u8);
        lemma_high_bytes(((v >> 6) & 0x3F) as u8);
        lemma_high_bytes(((v >> 12) & 0x3F) as u8);
        assert forall|k: int| 0 <= k < enc.len() implies #[trigger] enc[k] >= 0x80 by {}
        assert(slashed_bytes(enc) =~= enc);
    }
}

proof fn lemma_slashed_encode(path: Seq<char>)
    ensures
        slashed_bytes(vstd::utf8::encode_utf8(path)) == vstd::utf8::encode_utf8(slashed_chars(path)),
    decreases path.len(),
{
    if path.len() > 0 {
        let rest = path.drop_first();
        lemma_slashed_encode(rest);
        lemma_slashed_scalar(path[0]);
        assert(slashed_chars(path).drop_first() =~= slashed_chars(rest));
        let a = vstd::utf8::encode_scalar(path[0] as u32);
        let b = vstd::utf8::encode_utf8(rest);
        assert(slashed_bytes(a + b) =~= slashed_bytes(a) + slashed_bytes(b));
    } else {
        assert(slashed_chars(path) =~= Seq::<char>::empty());
        assert(slashed_bytes(Seq::<u8>::empty()) =~= Seq::<u8>::empty());
    }
}

/// Read as UTF-8 text, the percent-decoded encoding of a path is the path
/// itself with every `\` turned into `/`.
pub proof fn law_encoded_path_decodes_to_path_text(path: Seq<char>)
    ensures
        vstd::utf8::valid_utf8(percent_decode(spec_encode_path(path))),
        vstd::utf8::decode_utf8(percent_decode(spec_encode_path(path))) == slashed_chars(path),
{
    law_encoded_path_decodes_to_path(path);
    lemma_slashed_encode(path);
    vstd::utf8::encode_utf8_valid_utf8(slashed_chars(path));
    vstd::utf8::encode_utf8_decode_utf8(slashed_chars(path));
}

/// Text split at each `/`: `n` slashes give `n + 1` pieces, some of which
/// may be empty.
pub open spec fn split_at_slash(s: Seq<char>) -> Seq<Seq<char>>
    decreases s.len(),
{
    if s.len() == 0 {
        seq![Seq::empty()]
    } else {
        let init = split_at_slash(s.drop_last());
        if s.last() == '/' {
            init.push(Seq::empty())
        } else {
            init.update(init.len() - 1, init.last().push(s.last()))
        }
    }
}

/// A path split at each `/` and `\`: `n` separators give `n + 1` segments,
/// some of which may be empty.
pub open spec fn split_path(path: Seq<char>) -> Seq<Seq<char>>
    decreases path.len(),
{
    if path.len() == 0 {
        seq![Seq::empty()]
    } else {
        let init = split_path(path.drop_last());
        if path.last() == '/' || path.last() == '\\' {
            init.push(Seq::empty())
        } else {
            init.update(init.len() - 1, init.last().push(path.last()))
        }
    }
}

proof fn lemma_split_at_slash_nonempty(s: Seq<char>)
    ensures
        split_at_slash(s).len() >= 1,
    decreases s.len(),
{
    if s.len() > 0 {
        lemma_split_at_slash_nonempty(s.drop_last());
    }
}

proof fn lemma_split_path_nonempty(path: Seq<char>)
    ensures
        split_path(path).len() >= 1,
    decreases path.len(),
{
    if path.len() > 0 {
        lemma_split_path_nonempty(path.drop_last());
    }
}

/// Appending bytes without a separator extends the last segment.
proof fn lemma_split_segments_extend(bytes: Seq<u8>, more: Seq<u8>)
    requires
        forall|k: int| 0 <= k < more.len() ==> !is_separator(#[trigger] more[k]),
    ensures
        split_segments(bytes + more) == split_segments(bytes).update(
            split_segments(bytes).len() - 1,
            split_segments(bytes).last() + more,
        ),
    decreases more.len(),
{
    lemma_split_nonempty(bytes);
    let s = split_segments(bytes);
    if more.len() == 0 {
        assert(bytes + more =~= bytes);
        assert(s.update(s.len() - 1, s.last() + more) =~= s);
    } else {
        let m0 = more.drop_last();
        let b = more.last();
        assert forall|k: int| 0 <= k < m0.len() implies !is_separator(#[trigger] m0[k]) by {
            assert(m0[k] == more[k]);
        }
        lemma_split_segments_extend(bytes, m0);
        assert((bytes + more).drop_last() =~= bytes + m0);
        assert((bytes + more).last() == b);
        assert((s.last() + m0).push(b) =~= s.last() + more);
        assert(split_segments(bytes + more) =~= s.update(s.len() - 1, s.last() + more));
    }
}

/// Appending text without a `/` extends the last piece.
proof fn lemma_split_at_slash_extend(s: Seq<char>, more: Seq<char>)
    requires
        forall|k: int| 0 <= k < more.len() ==> #[trigger] more[k] != '/',
    ensures
        split_at_slash(s + more) == split_at_slash(s).update(
            split_at_slash(s).len() - 1,
            split_at_slash(s).last() + more,
        ),
    decreases more.len(),
{
    lemma_split_at_slash_nonempty(s);
    let p = split_at_slash(s);
    if more.len() == 0 {
        assert(s + more =~= s);
        assert(p.update(p.len() - 1, p.last() + more) =~= p);
    } else {
        let m0 = more.drop_last();
        let c = more.last();
        assert forall|k: int| 0 <= k < m0.len() implies #[trigger] m0[k] != '/' by {
            assert(m0[k] == more[k]);
        }
        lemma_split_at_slash_extend(s, m0);
        assert((s + more).drop_last() =~= s + m0);
        assert((s + more).last() == c);
        assert((p.last() + m0).push(c) =~= p.last() + more);
        assert(split_at_slash(s + more) =~= p.update(p.len() - 1, p.last() + more));
    }
}

proof fn lemma_encode_byte_has_no_slash(b: u8)
    requires
        !is_separator(b),
    ensures
        forall|k: int| 0 <= k < encode_byte(b).len() ==> #[trigger] encode_byte(b)[k] != '/',
{
    if needs_percent(b) {
        let hi = (b / 16) as nat;
        let lo = (b % 16) as nat;
        assert(hi < 16 && lo < 16);
    }
}

/// Split at `/`, the text written byte by byte gives the encoded segments.
proof fn lemma_split_bytewise(bytes: Seq<u8>)
    ensures
        split_at_slash(bytewise_encoding(bytes)) == split_segments(bytes).map_values(
            |seg: Seq<u8>| percent_encode_bytes(seg),
        ),
    decreases bytes.len(),
{
    let f = |seg: Seq<u8>| percent_encode_bytes(seg);
    if bytes.len() == 0 {
        assert(split_segments(bytes).map_values(f) =~= seq![Seq::<char>::empty()]);
    } else {
        let init = bytes.drop_last();
        let b = bytes.last();
        lemma_split_bytewise(init);
        lemma_split_nonempty(init);
        let x = bytewise_encoding(init);
        let segs = split_segments(init);
        if is_separator(b) {
            assert((x + seq!['/']).drop_last() =~= x);
            assert(bytewise_encoding(bytes) =~= x + seq!['/']);
            assert(segs.push(Seq::empty()).map_values(f) =~= segs.map_values(f).push(
                Seq::empty(),
            ));
        } else {
            lemma_encode_byte_has_no_slash(b);
            lemma_split_at_slash_extend(x, encode_byte(b));
            assert(bytewise_encoding(bytes) =~= x + encode_byte(b));
            let last = segs.last();
            assert(last.push(b).drop_last() =~= last);
            assert(percent_encode_bytes(last.push(b)) == percent_encode_bytes(last) + encode_byte(
                b,
            ));
            assert(segs.update(segs.len() - 1, last.push(b)).map_values(f) =~= segs.map_values(
                f,
            ).update(segs.len() - 1, segs.map_values(f).last() + encode_byte(b)));
        }
    }
}

/// No segment holds a separator.
proof fn lemma_segments_have_no_separator(bytes: Seq<u8>)
    ensures
        forall|i: int, k: int|
            0 <= i < split_segments(bytes).len() && 0 <= k < split_segments(bytes)[i].len()
                ==> !is_separator(#[trigger] split_segments(bytes)[i][k]),
    decreases bytes.len(),
{
    if bytes.len() > 0 {
        lemma_segments_have_no_separator(bytes.drop_last());
        lemma_split_nonempty(bytes.drop_last());
        let segs = split_segments(bytes.drop_last());
        let r = split_segments(bytes);
        assert forall|i: int, k: int| 0 <= i < r.len() && 0 <= k < r[i].len() implies !is_separator(
            #[trigger] r[i][k],
        ) by {
            if i < segs.len() - 1 {
                assert(r[i] == segs[i]);
            } else if i == segs.len() - 1 && !is_separator(bytes.last()) {
                assert(r[i] == segs.last().push(bytes.last()));
                if k < segs.last().len() {
                    assert(r[i][k] == segs[i][k]);
                }
            }
        }
    }
}

proof fn lemma_plain_segment_round_trip(seg: Seq<u8>)
    requires
        forall|k: int| 0 <= k < seg.len() ==> !is_separator(#[trigger] seg[k]),
    ensures
        percent_decode(percent_encode_bytes(seg)) == seg,
{
    lemma_plain_bytewise(seg);
    lemma_decode_bytewise(seg);
    assert(slashed_bytes(seg) =~= seg);
}

proof fn lemma_plain_bytewise(seg: Seq<u8>)
    requires
        forall|k: int| 0 <= k < seg.len() ==> !is_separator(#[trigger] seg[k]),
    ensures
        bytewise_encoding(seg) == percent_encode_bytes(seg),
    decreases seg.len(),
{
    if seg.len() > 0 {
        let init = seg.drop_last();
        assert forall|k: int| 0 <= k < init.len() implies !is_separator(#[trigger] init[k]) by {
            assert(init[k] == seg[k]);
        }
        lemma_plain_bytewise(init);
        assert(!is_separator(seg[seg.len() - 1]));
    }
}

proof fn lemma_encode_utf8_concat(a: Seq<char>, b: Seq<char>)
    ensures
        vstd::utf8::encode_utf8(a + b) == vstd::utf8::encode_utf8(a) + vstd::utf8::encode_utf8(b),
    decreases a.len(),
{
    if a.len() == 0 {
        assert(a + b =~= b);
        assert(vstd::utf8::encode_utf8(a) + vstd::utf8::encode_utf8(b) =~= vstd::utf8::encode_utf8(
            b,
        ));
    } else {
        lemma_encode_utf8_concat(a.drop_first(), b);
        assert((a + b).drop_first() =~= a.drop_first() + b);
        assert((a + b)[0] == a[0]);
        assert(vstd::utf8::encode_utf8(a + b) =~= vstd::utf8::encode_utf8(a)
            + vstd::utf8::encode_utf8(b));
    }
}

proof fn lemma_encode_utf8_push(s: Seq<char>, c: char)
    ensures
        vstd::utf8::encode_utf8(s.push(c)) == vstd::utf8::encode_utf8(s) + vstd::utf8::encode_scalar(
            c as u32,
        ),
{
    lemma_encode_utf8_concat(s, seq![c]);
    assert(s.push(c) =~= s + seq![c]);
    assert(seq![c].drop_first() =~= Seq::<char>::empty());
    assert(seq![c][0] == c);
    assert(vstd::utf8::encode_utf8(Seq::<char>::empty()) =~= Seq::<u8>::empty());
    assert(vstd::utf8::encode_utf8(seq![c]) =~= vstd::utf8::encode_scalar(c as u32));
}

/// The UTF-8 bytes of a character hold a separator byte only when the
/// character is `/` or `\`, and then it is that one byte.
proof fn lemma_scalar_separators(c: char)
    ensures
        (c == '/' || c == '\\') ==> vstd::utf8::encode_scalar(c as u32) == seq![c as u8]
            && is_separator(c as u8),
        !(c == '/' || c == '\\') ==> forall|k: int|
            0 <= k < vstd::utf8::encode_scalar(c as u32).len() ==> !is_separator(
                #[trigger] vstd::utf8::encode_scalar(c as u32)[k],
            ),
{
    let v = c as u32;
    let enc = vstd::utf8::encode_scalar(v);
    if vstd::utf8::has_width_1_encoding(v) {
        lemma_low_scalar(v);
        assert(enc[0] == v as u8);
        assert(('/' as u32) == 0x2F);
        assert(('\\' as u32) == 0x5C);
        if c == '/' || c == '\\' {
            assert(enc =~= seq![c as u8]);
        }
    } else {
        lemma_high_bytes(((v >> 6) & 0x1F) as u8);
        lemma_high_bytes(((v >> 12) & 0x0F) as u8);
        lemma_high_bytes(((v >> 18) & 0x7) as u8);
        lemma_high_bytes((v & 0x3F) as u8);
        lemma_high_bytes(((v >> 6) & 0x3F) as u8);
        lemma_high_bytes(((v >> 12) & 0x3F) as u8);
        assert forall|k: int| 0 <= k < enc.len() implies #[trigger] enc[k] >= 0x80 by {}
    }
}

/// The byte segments of a path are the UTF-8 bytes of its segments.
proof fn lemma_split_encode_utf8(path: Seq<char>)
    ensures
        split_segments(vstd::utf8::encode_utf8(path)) == split_path(path).map_values(
            |seg: Seq<char>| vstd::utf8::encode_utf8(seg),
        ),
    decreases path.len(),
{
    let f = |seg: Seq<char>| vstd::utf8::encode_utf8(seg);
    if path.len() == 0 {
        assert(split_path(path).map_values(f) =~= seq![Seq::<u8>::empty()]);
    } else {
        let init = path.drop_last();
        let c = path.last();
        lemma_split_encode_utf8(init);
        lemma_split_path_nonempty(init);
        lemma_encode_utf8_push(init, c);
        assert(init.push(c) =~= path);
        lemma_scalar_separators(c);
        let x = vstd::utf8::encode_utf8(init);
        let parts = split_path(init);
        if c == '/' || c == '\\' {
            assert((x + seq![c as u8]).drop_last() =~= x);
            assert(parts.push(Seq::empty()).map_values(f) =~= parts.map_values(f).push(
                Seq::empty(),
            ));
        } else {
            lemma_split_segments_extend(x, vstd::utf8::encode_scalar(c as u32));
            lemma_encode_utf8_push(parts.last(), c);
            assert(parts.update(parts.len() - 1, parts.last().push(c)).map_values(f)
                =~= parts.map_values(f).update(
                parts.len() - 1,
                parts.map_values(f).last() + vstd::utf8::encode_scalar(c as u32),
            ));
        }
    }
}

/// An encoded path can be read segment by segment: split at `/`, it has one
/// piece for each `/`- or `\`-separated segment of the path, and each piece
/// percent-decodes to the UTF-8 text of its segment.
pub proof fn law_encoded_segments_decode_to_path_segments(path: Seq<char>)
    ensures
        split_at_slash(spec_encode_path(path)).len() == split_path(path).len(),
        forall|i: int|
            0 <= i < split_path(path).len() ==> vstd::utf8::valid_utf8(
                percent_decode(#[trigger] split_at_slash(spec_encode_path(path))[i]),
            ) && vstd::utf8::decode_utf8(percent_decode(split_at_slash(spec_encode_path(path))[i]))
                == split_path(path)[i],
{
    let bytes = vstd::utf8::encode_utf8(path);
    lemma_bytewise_is_split_join(bytes);
    lemma_split_bytewise(bytes);
    lemma_split_encode_utf8(path);
    lemma_segments_have_no_separator(bytes);
    let segs = split_segments(bytes);
    let pieces = split_at_slash(spec_encode_path(path));
    assert forall|i: int| 0 <= i < split_path(path).len() implies vstd::utf8::valid_utf8(
        percent_decode(#[trigger] pieces[i]),
    ) && vstd::utf8::decode_utf8(percent_decode(pieces[i])) == split_path(path)[i] by {
        let seg = segs[i];
        assert(pieces[i] == percent_encode_bytes(seg));
        assert forall|k: int| 0 <= k < seg.len() implies !is_separator(#[trigger] seg[k]) by {
            assert(seg[k] == segs[i][k]);
        }
        lemma_plain_segment_round_trip(seg);
        assert(seg == vstd::utf8::encode_utf8(split_path(path)[i]));
        vstd::utf8::encode_utf8_valid_utf8(split_path(path)[i]);
        vstd::utf8::encode_utf8_decode_utf8(split_path(path)[i]);
    }
}

/// The normal form of the URL prefix: a `/` is put in front when it does
/// not start with one, then one trailing `/` is taken off unless the prefix
/// is `/` alone.
pub open spec fn spec_normalize_prefix(p: Seq<char>) -> Seq<char> {
    let slashed = if p.len() > 0 && p[0] == '/' {
        p
    } else {
        seq!['/'] + p
    };
    if slashed.last() == '/' && slashed.len() > 1 {
        slashed.drop_last()
    } else {
        slashed
    }
}

/// Brings the URL prefix into its normal form (see `spec_normalize_prefix`).
pub fn normalize_prefix(prefix: &str) -> (r: String)
    ensures
        r@ == spec_normalize_prefix(prefix@),
{
    let mut chars = chars_of(prefix);
    if !(chars.len() > 0 && chars[0] == '/') {
        chars.insert(0, '/');
    }
    let n = chars.len();
    if chars[n - 1] == '/' && n > 1 {
        chars.pop();
    }
    let mut r = String::new();
    push_chars(&mut r, &chars);
    assert(r@ =~= spec_normalize_prefix(prefix@));
    r
}

/// Whether `p` ends with two slashes.
pub open spec fn ends_with_double_slash(p: Seq<char>) -> bool {
    p.len() >= 2 && p[p.len() - 1] == '/' && p[p.len() - 2] == '/'
}

/// A normalized prefix is never empty and starts with `/`.
pub proof fn law_normalized_prefix_starts_with_slash(p: Seq<char>)
    ensures
        spec_normalize_prefix(p).len() >= 1,
        spec_normalize_prefix(p)[0] == '/',
{
}

/// Unless the prefix ended in two slashes (only one is taken off), its
/// normal form ends with `/` only when it is `/` alone, and normalizing it
/// again changes nothing.
pub proof fn law_normalized_prefix_is_stable(p: Seq<char>)
    requires
        !ends_with_double_slash(p),
    ensures
        spec_normalize_prefix(p).last() == '/' ==> spec_normalize_prefix(p) == seq!['/'],
        spec_normalize_prefix(spec_normalize_prefix(p)) == spec_normalize_prefix(p),
{
    let slashed = if p.len() > 0 && p[0] == '/' {
        p
    } else {
        seq!['/'] + p
    };
    assert(slashed[0] == '/');
    if slashed.len() >= 2 {
        assert(slashed[slashed.len() - 2] == p[p.len() - 2] || p.len() == 1);
    }
    let q = spec_normalize_prefix(p);
    assert(q[0] == '/');
    if q.last() == '/' {
        assert(q =~= seq!['/']);
    }
}

} // verus!
