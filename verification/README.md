# tree

The logic of a small directory index service, verified with Verus.

- `src/size.rs`: human readable sizes (`format_size`), computed with integers
  exactly as two-decimal formatting of the double quotient prints them.
- `src/short_id.rs`: stable short ids (FNV-1a of the relative path, URL-safe
  base64) and the lookup from an id to the file's redirect location.
- `src/url_path.rs`: percent-encoding of file paths into URL paths, and the
  normal form of the URL prefix.
- `src/icon.rs`: file icons by lower-cased extension.
- `src/dir_tree.rs`, `src/page.rs`: the HTML directory tree page
  (directories first, names in byte order; file count and total size at
  the top; copy-link and QR-code controls on each file; light and dark
  color schemes).
- `src/auth.rs`: optional HTTP Basic login protection.
- `src/links.rs`: the JSON link listing.
- `app/main.rs`: the server (command line, file system walk, local time
  rendering, HTTP routes) around the library.
