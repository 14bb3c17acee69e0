//! The HTML of the index page around the tree, and of one file row.

use vstd::prelude::*;
use crate::dir_tree::{
    capped, distinct_at_every_depth, file_count, law_tree_html_ignores_read_order,
    law_tree_stats_ignore_read_order, render_html_recursive, render_node,
    same_tree_up_to_read_order, total_size, tree_stats, TreeNode,
};
use crate::size::{format_size, spec_format_size};
use crate::text::{decimal, push_decimal};

verus! {

/// Opens a file row and its icon.
pub const FILE_ICON_OPEN: &'static str = "<div class=\"file\">\n                <div class=\"file-name\">\n                    <span class=\"file-icon\">";

/// Closes the icon and opens the file link.
pub const FILE_LINK_OPEN: &'static str = "</span>\n                    <a href=\"";

/// Between the prefix and the encoded path of the file link.
pub const FILE_LINK_SLASH: &'static str = "/";

/// Closes the link target and opens the link text.
pub const FILE_LINK_CLOSE: &'static str = "\">";

/// Closes the link and opens the size.
pub const FILE_SIZE_OPEN: &'static str = "</a>\n                </div>\n                <div class=\"file-info\">\n                    <span class=\"file-size\">";

/// Closes the size and opens the date.
pub const FILE_DATE_OPEN: &'static str = "</span>\n                    <span class=\"file-date\">";

/// Closes the date and opens the copy-link control, which takes the direct
/// link of the file.
pub const FILE_COPY_OPEN: &'static str = "</span>\n                    <span class=\"copy-link\" title=\"Copy direct link\" data-link=\"";

/// Closes the copy-link control and opens the QR-code trigger, which takes
/// the short id.
pub const FILE_QR_OPEN: &'static str = "\" onclick=\"copyLink(this)\">🔗</span>\n                    <span class=\"qr-trigger\" title=\"Generate QR Code\" onclick=\"showQR('";

/// Closes the QR-code trigger and the file row.
pub const FILE_CLOSE: &'static str = "')\">📱</span>\n                </div>\n            </div>";

/// The page from the document head up to the theme rules: meta data, title and the light style.
pub const PAGE_STYLE: &'static str = "<!DOCTYPE html>\n<html lang=\"en\">\n<head>\n    <meta charset=\"utf-8\">\n    <meta name=\"viewport\" content=\"width=device-width, initial-scale=1.0\">\n    <title>Tree Index</title>\n    <style>\n        body { font-family: -apple-system, BlinkMacSystemFont, \"Segoe UI\", Roboto, Helvetica, Arial, sans-serif; padding: 20px; line-height: 1.6; color: #333; max-width: 1200px; margin: 0 auto; background-color: #f9f9f9; }\n        h1 { border-bottom: 2px solid #eee; padding-bottom: 10px; color: #2c3e50; }\n        ul { list-style-type: none; padding-left: 24px; margin: 0; }\n        li { margin: 4px 0; }\n        details { margin: 2px 0; }\n        summary { cursor: pointer; color: #3498db; font-weight: 600; outline: none; list-style: none; display: flex; align-items: center; }\n        summary::-webkit-details-marker { display: none; }\n        summary:hover { color: #2980b9; }\n        summary::before { content: \"📁 \"; display: inline-block; width: 1.5em; flex-shrink: 0; }\n        details[open] > summary::before { content: \"📂 \"; }\n        a { color: #2c3e50; text-decoration: none; border-radius: 3px; overflow: hidden; text-overflow: ellipsis; white-space: nowrap; }\n        a:hover { background-color: #f0f0f0; color: #e67e22; }\n        .file { display: flex; align-items: center; border-bottom: 1px solid #f0f0f0; padding: 4px 0; }\n        .file:hover { background-color: #fcfcfc; }\n        .file-icon { display: inline-block; width: 1.5em; flex-shrink: 0; }\n        .file-name { flex: 1; min-width: 0; display: flex; align-items: center; }\n        .file-info { font-size: 0.85em; color: #999; margin-left: 15px; white-space: nowrap; display: flex; gap: 15px; }\n        .file-size { width: 80px; text-align: right; }\n        .file-date { width: 140px; text-align: right; }\n        .qr-trigger, .copy-link { cursor: pointer; margin-left: 10px; opacity: 0.3; transition: opacity 0.3s; font-size: 0.9em; flex-shrink: 0; }\n        .qr-trigger:hover, .copy-link:hover { opacity: 1; }\n        .stats { color: #7f8c8d; font-size: 0.9em; margin: -5px 0 15px 0; }\n        .container { background: white; padding: 30px; border-radius: 8px; box-shadow: 0 2px 10px rgba(0,0,0,0.05); }\n        .search-box { margin-bottom: 20px; position: sticky; top: 0; background: white; padding: 10px 0; z-index: 100; border-bottom: 1px solid #eee; }\n        #search { width: 100%; padding: 12px; border: 2px solid #eee; border-radius: 6px; font-size: 16px; transition: border-color 0.3s; }\n        #search:focus { border-color: #3498db; outline: none; }\n        #qr-modal { display: none; position: fixed; top: 0; left: 0; width: 100%; height: 100%; background: rgba(0,0,0,0.6); z-index: 1000; justify-content: center; align-items: center; backdrop-filter: blur(2px); }\n        .qr-content { background: white; padding: 30px; border-radius: 12px; text-align: center; position: relative; box-shadow: 0 10px 25px rgba(0,0,0,0.2); max-width: 90%; }\n        .qr-close { position: absolute; top: 10px; right: 15px; cursor: pointer; font-size: 24px; color: #999; }\n        .qr-close:hover { color: #333; }\n        #qr-code img { margin: 0 auto; }\n        #qr-url { margin-top: 15px; font-size: 0.8em; color: #666; word-break: break-all; max-width: 320px; }\n        footer { margin-top: 40px; font-size: 0.8em; color: #95a5a6; text-align: center; }\n        code { background: #f0f0f0; padding: 2px 4px; border-radius: 3px; font-family: monospace; }\n";

/// The rules that follow the system's dark color scheme.
pub const DARK_THEME: &'static str = "        @media (prefers-color-scheme: dark) {\n            body { color: #ddd; background-color: #121212; }\n            h1 { color: #e0e0e0; border-bottom-color: #333; }\n            .container, .search-box, .qr-content { background: #1e1e1e; }\n            a { color: #cfd8dc; }\n            a:hover { background-color: #2a2a2a; color: #f39c12; }\n            .file { border-bottom-color: #2a2a2a; }\n            .file:hover { background-color: #242424; }\n            #search { background: #121212; color: #ddd; border-color: #333; }\n            .search-box { border-bottom-color: #333; }\n            .stats { color: #95a5a6; }\n            code { background: #2a2a2a; }\n        }\n";

/// The narrow-screen rules, the end of the head, and the page title.
pub const PAGE_TITLE: &'static str = "        @media (max-width: 600px) {\n            .file-date { display: none; }\n            .file-info { gap: 5px; }\n        }\n    </style>\n    <script src=\"https://cdn.jsdelivr.net/npm/qrcodejs@1.0.0/qrcode.min.js\"></script>\n</head>\n<body>\n    <div class=\"container\">\n        <h1>Tree Index</h1>\n";

/// Opens the overview line and its file count.
pub const STATS_COUNT_OPEN: &'static str = "        <div class=\"stats\"><span id=\"file-count\">";

/// Between the file count and the total size.
pub const STATS_SIZE_OPEN: &'static str = "</span> files, <span id=\"total-size\">";

/// Closes the overview line.
pub const STATS_CLOSE: &'static str = "</span> in total</div>\n";

/// The search box and the opening of the tree.
pub const PAGE_TREE_OPEN: &'static str = "        <div class=\"search-box\">\n            <input type=\"text\" id=\"search\" placeholder=\"Search files and folders...\" autocomplete=\"off\">\n        </div>\n        <div id=\"tree-root\">";

/// The page after the tree: QR-code dialog, footer, and the search, QR-code and copy-link scripts.
pub const PAGE_TAIL: &'static str = "        </div>\n    </div>\n\n    <div id=\"qr-modal\" onclick=\"closeQR()\">\n        <div class=\"qr-content\" onclick=\"event.stopPropagation()\">\n            <span class=\"qr-close\" onclick=\"closeQR()\">&times;</span>\n            <div id=\"qr-code\"></div>\n            <div id=\"qr-url\"></div>\n        </div>\n    </div>\n\n    <footer>\n        <p>Generated by <code>tree</code> - Lightweight Directory Indexer</p>\n    </footer>\n\n    <script>\n        const searchInput = document.getElementById('search');\n        const treeRoot = document.getElementById('tree-root');\n\n        function showQR(shortId) {\n            const modal = document.getElementById('qr-modal');\n            const container = document.getElementById('qr-code');\n            const urlText = document.getElementById('qr-url');\n            \n            const shortUrl = window.location.origin + '/s/' + shortId;\n            \n            container.innerHTML = '';\n            urlText.textContent = shortUrl;\n            \n            new QRCode(container, {\n                text: shortUrl,\n                width: 320,\n                height: 320,\n                colorDark : \"#2c3e50\",\n                colorLight : \"#ffffff\",\n                correctLevel : QRCode.CorrectLevel.L\n            });\n            \n            modal.style.display = 'flex';\n        }\n\n        function copyLink(el) {\n            const url = new URL(el.dataset.link, window.location.origin).href;\n            if (navigator.clipboard) {\n                navigator.clipboard.writeText(url);\n            }\n            el.title = 'Copied: ' + url;\n        }\n\n        function closeQR() {\n            document.getElementById('qr-modal').style.display = 'none';\n        }\n\n        searchInput.addEventListener('input', (e) => {\n            const term = e.target.value.toLowerCase().trim();\n            const allLis = treeRoot.querySelectorAll('li');\n            const allDetails = treeRoot.querySelectorAll('details');\n\n            if (term === '') {\n                allLis.forEach(li => li.style.display = '');\n                allDetails.forEach(details => {\n                    details.style.display = '';\n                    details.open = true;\n                });\n                return;\n            }\n\n            allLis.forEach(li => li.style.display = 'none');\n            allDetails.forEach(details => {\n                details.style.display = 'none';\n                details.open = false;\n            });\n\n            const files = treeRoot.querySelectorAll('.file');\n            files.forEach(file => {\n                const nameLink = file.querySelector('a');\n                if (nameLink && nameLink.textContent.toLowerCase().includes(term)) {\n                    let li = file.parentElement;\n                    li.style.display = 'block';\n                    let parent = li.parentElement;\n                    while (parent && parent !== treeRoot) {\n                        if (parent.tagName === 'DETAILS') {\n                            parent.style.display = 'block';\n                            parent.open = true;\n                        } else if (parent.tagName === 'LI' || parent.tagName === 'UL') {\n                            parent.style.display = 'block';\n                        }\n                        parent = parent.parentElement;\n                    }\n                }\n            });\n            \n            allDetails.forEach(details => {\n                const summary = details.querySelector('summary');\n                if (summary && summary.textContent.toLowerCase().includes(term)) {\n                    details.style.display = 'block';\n                    details.open = true;\n                    details.querySelectorAll(':scope > ul > li').forEach(li => li.style.display = 'block');\n                    let parent = details.parentElement;\n                    while (parent && parent !== treeRoot) {\n                        if (parent.tagName === 'DETAILS') {\n                            parent.style.display = 'block';\n                            parent.open = true;\n                        } else if (parent.tagName === 'LI' || parent.tagName === 'UL') {\n                            parent.style.display = 'block';\n                        }\n                        parent = parent.parentElement;\n                    }\n                }\n            });\n        });\n    </script>\n</body>\n</html>";

/// The overview line: how many files the tree shows, and their total size.
pub open spec fn spec_stats_line(root: TreeNode) -> Seq<char> {
    STATS_COUNT_OPEN@ + decimal(capped(file_count(root)) as nat) + STATS_SIZE_OPEN@
        + spec_format_size(capped(total_size(root))) + STATS_CLOSE@
}

/// The whole index page: the head with the light style and the rules of
/// the dark color scheme, the title, the overview line (file count and
/// total size), the search box, the tree of the served directory, and the
/// tail.
pub open spec fn spec_index_page(root: TreeNode, prefix: Seq<char>) -> Seq<char> {
    PAGE_STYLE@ + DARK_THEME@ + PAGE_TITLE@ + spec_stats_line(root) + PAGE_TREE_OPEN@
        + render_node(root, prefix) + PAGE_TAIL@
}

/// The index page of the served directory `root`, whose files are served
/// under `prefix`.
pub fn render_index_page(root: &TreeNode, prefix: &str) -> (html: String)
    ensures
        html@ == spec_index_page(*root, prefix@),
{
    let (count, size) = tree_stats(root);
    let mut html = String::new();
    html.append(PAGE_STYLE);
    html.append(DARK_THEME);
    html.append(PAGE_TITLE);
    html.append(STATS_COUNT_OPEN);
    push_decimal(&mut html, count as u128);
    html.append(STATS_SIZE_OPEN);
    let size_text = format_size(size);
    html.append(size_text.as_str());
    html.append(STATS_CLOSE);
    html.append(PAGE_TREE_OPEN);
    render_html_recursive(root, prefix, &mut html);
    html.append(PAGE_TAIL);
    assert(html@ =~= spec_index_page(*root, prefix@));
    html
}

/// The index page does not depend on the order in which the entries of any
/// directory of the served tree were read: two readings of the same tree
/// give the same page (entries of one directory never share both kind and
/// name).
pub proof fn law_index_page_ignores_read_order(n1: TreeNode, n2: TreeNode, prefix: Seq<char>)
    requires
        same_tree_up_to_read_order(n1, n2),
        distinct_at_every_depth(n1),
        distinct_at_every_depth(n2),
    ensures
        spec_index_page(n1, prefix) == spec_index_page(n2, prefix),
{
    law_tree_html_ignores_read_order(n1, n2, prefix);
    law_tree_stats_ignore_read_order(n1, n2);
}

} // verus!
