//! Directory index service logic: short file ids, URL path encoding, human
//! readable sizes, file icons, the HTML tree page and the JSON link listing.

pub mod size;
pub mod text;
pub mod url_path;
pub mod links;
pub mod short_id;
pub mod icon;
pub mod dir_tree;
pub mod page;
pub mod auth;
