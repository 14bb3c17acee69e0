//! The directory tree page: directories as collapsible lists, directories
//! before files and names in byte order, each file with its icon, direct
//! link, size, date and short id.

use vstd::prelude::*;
use vstd::utf8::{decode_utf8, valid_utf8};
use crate::icon::{get_file_icon, icon_text, spec_file_kind};
use crate::page::{
    FILE_CLOSE, FILE_COPY_OPEN, FILE_DATE_OPEN, FILE_ICON_OPEN, FILE_LINK_CLOSE, FILE_LINK_OPEN,
    FILE_LINK_SLASH, FILE_QR_OPEN, FILE_SIZE_OPEN,
};
use crate::short_id::{hash_path, spec_short_id};
use crate::size::{format_size, spec_format_size};
use crate::text::utf8_text;
use crate::url_path::{encode_path, spec_encode_path};

verus! {

/// A directory entry of the served tree, as read from the file system.
pub enum TreeNode {
    /// A directory and its entries, in the order they were read (none when
    /// the directory could not be read).
    Dir { name: Option<Vec<u8>>, children: Vec<TreeNode> },
    /// A file.
    File {
        /// The raw bytes of the file name, `None` when the path has none.
        name: Option<Vec<u8>>,
        /// The path relative to the served directory (lossily made text),
        /// `None` when the file is not under it.
        rel_path: Option<String>,
        /// The length in bytes, `None` when the metadata could not be read.
        size: Option<u64>,
        /// The local modification time as text, `None` when unknown.
        modified: Option<String>,
    },
}

/// Whether the entry is a directory.
pub open spec fn node_is_dir(n: TreeNode) -> bool {
    n is Dir
}

/// The raw name of the entry (empty when it has none).
pub open spec fn node_name(n: TreeNode) -> Seq<u8> {
    let name = match n {
        TreeNode::Dir { name, .. } => name,
        TreeNode::File { name, .. } => name,
    };
    match name {
        Some(v) => v@,
        None => Seq::empty(),
    }
}

/// Byte strings in lexicographic order: `a` comes before `b` or equals it.
pub open spec fn bytes_le(a: Seq<u8>, b: Seq<u8>) -> bool
    decreases a.len(),
{
    if a.len() == 0 {
        true
    } else if b.len() == 0 {
        false
    } else if a[0] < b[0] {
        true
    } else if a[0] > b[0] {
        false
    } else {
        bytes_le(a.drop_first(), b.drop_first())
    }
}

/// The listing order of entries: directories before files, then names in
/// byte order. `entry_le(a, b)` holds when `a` may be listed before `b`.
pub open spec fn entry_le(a: TreeNode, b: TreeNode) -> bool {
    if node_is_dir(a) != node_is_dir(b) {
        node_is_dir(a)
    } else {
        bytes_le(node_name(a), node_name(b))
    }
}

/// Inserts the index `x` into an ordered index list, before the first
/// entry that `x` may be listed before.
pub open spec fn insert_index(entries: Seq<TreeNode>, x: int, sorted: Seq<int>) -> Seq<int>
    decreases sorted.len(),
{
    if sorted.len() == 0 {
        seq![x]
    } else if entry_le(entries[x], entries[sorted[0]]) {
        seq![x] + sorted
    } else {
        seq![sorted[0]] + insert_index(entries, x, sorted.drop_first())
    }
}

/// The listing order of the entries from index `start` on.
pub open spec fn sort_order_from(entries: Seq<TreeNode>, start: int) -> Seq<int>
    decreases entries.len() - start,
{
    if start >= entries.len() || start < 0 {
        Seq::empty()
    } else {
        insert_index(entries, start, sort_order_from(entries, start + 1))
    }
}

/// The listing order of a directory's entries, as indices into them: the
/// stable sort by `entry_le` (entries with the same kind and name keep the
/// order in which they were read).
pub open spec fn sort_order(entries: Seq<TreeNode>) -> Seq<int> {
    sort_order_from(entries, 0)
}

/// Whether the entry is a directory.
fn is_directory(n: &TreeNode) -> (r: bool)
    ensures
        r == node_is_dir(*n),
{
    match n {
        TreeNode::Dir { .. } => true,
        TreeNode::File { .. } => false,
    }
}

/// Whether the byte string `a` comes before `b` or equals it.
fn bytes_before_or_equal(a: &Vec<u8>, b: &Vec<u8>) -> (r: bool)
    ensures
        r == bytes_le(a@, b@),
{
    let mut i: usize = 0;
    assert(a@.skip(0) =~= a@);
    assert(b@.skip(0) =~= b@);
    while i < a.len() && i < b.len() && a[i] == b[i]
        invariant
            i <= a@.len(),
            i <= b@.len(),
            bytes_le(a@, b@) == bytes_le(a@.skip(i as int), b@.skip(i as int)),
        decreases a@.len() - i,
    {
        assert(a@.skip(i as int).drop_first() =~= a@.skip(i + 1));
        assert(b@.skip(i as int).drop_first() =~= b@.skip(i + 1));
        i = i + 1;
    }
    if i == a.len() {
        true
    } else if i == b.len() {
        false
    } else {
        a[i] < b[i]
    }
}

/// Whether the entry `a` may be listed before `b`.
fn entry_before(a: &TreeNode, b: &TreeNode) -> (r: bool)
    ensures
        r == entry_le(*a, *b),
{
    let a_dir = is_directory(a);
    let b_dir = is_directory(b);
    if a_dir != b_dir {
        return a_dir;
    }
    let empty: Vec<u8> = Vec::new();
    let a_name = match a {
        TreeNode::Dir { name, .. } => name,
        TreeNode::File { name, .. } => name,
    };
    let b_name = match b {
        TreeNode::Dir { name, .. } => name,
        TreeNode::File { name, .. } => name,
    };
    let an: &Vec<u8> = match a_name {
        Some(v) => v,
        None => &empty,
    };
    let bn: &Vec<u8> = match b_name {
        Some(v) => v,
        None => &empty,
    };
    bytes_before_or_equal(an, bn)
}

proof fn lemma_insert_index_at(entries: Seq<TreeNode>, x: int, sorted: Seq<int>, p: int)
    requires
        0 <= p <= sorted.len(),
        forall|k: int| 0 <= k < p ==> !entry_le(entries[x], entries[#[trigger] sorted[k]]),
        p < sorted.len() ==> entry_le(entries[x], entries[sorted[p]]),
    ensures
        insert_index(entries, x, sorted) == sorted.take(p) + seq![x] + sorted.skip(p),
    decreases sorted.len(),
{
    if sorted.len() == 0 {
        assert(sorted.take(p) + seq![x] + sorted.skip(p) =~= seq![x]);
    } else if p == 0 {
        assert(sorted.take(p) + seq![x] + sorted.skip(p) =~= seq![x] + sorted);
    } else {
        assert(!entry_le(entries[x], entries[sorted[0]]));
        let rest = sorted.drop_first();
        assert forall|k: int| 0 <= k < p - 1 implies !entry_le(
            entries[x],
            entries[#[trigger] rest[k]],
        ) by {
            assert(rest[k] == sorted[k + 1]);
        }
        lemma_insert_index_at(entries, x, rest, p - 1);
        assert(sorted.take(p) + seq![x] + sorted.skip(p) =~= seq![sorted[0]] + (rest.take(p - 1)
            + seq![x] + rest.skip(p - 1)));
    }
}

/// The listing order of the entries (see `sort_order`).
pub fn listing_order(entries: &Vec<TreeNode>) -> (order: Vec<usize>)
    ensures
        order@.map_values(|i: usize| i as int) == sort_order(entries@),
{
    let n = entries.len();
    let mut order: Vec<usize> = Vec::new();
    let mut s: usize = n;
    while s > 0
        invariant
            s <= n == entries@.len(),
            order@.map_values(|i: usize| i as int) == sort_order_from(entries@, s as int),
            forall|k: int| 0 <= k < order@.len() ==> #[trigger] order@[k] < n,
        decreases s,
    {
        let x = s - 1;
        let ghost sorted = order@.map_values(|i: usize| i as int);
        let mut p: usize = 0;
        while p < order.len() && !entry_before(&entries[x], &entries[order[p]])
            invariant
                p <= order@.len(),
                x < n == entries@.len(),
                sorted == order@.map_values(|i: usize| i as int),
                forall|k: int| 0 <= k < order@.len() ==> #[trigger] order@[k] < n,
                forall|k: int|
                    0 <= k < p ==> !entry_le(entries@[x as int], entries@[#[trigger] sorted[k]]),
            decreases order@.len() - p,
        {
            p = p + 1;
        }
        proof {
            lemma_insert_index_at(entries@, x as int, sorted, p as int);
        }
        order.insert(p, x);
        assert(order@.map_values(|i: usize| i as int) =~= sorted.take(p as int) + seq![x as int]
            + sorted.skip(p as int));
        s = x;
    }
    order
}

proof fn lemma_bytes_le_total(a: Seq<u8>, b: Seq<u8>)
    ensures
        bytes_le(a, b) || bytes_le(b, a),
    decreases a.len(),
{
    if a.len() > 0 && b.len() > 0 && a[0] == b[0] {
        lemma_bytes_le_total(a.drop_first(), b.drop_first());
    }
}

proof fn lemma_bytes_le_transitive(a: Seq<u8>, b: Seq<u8>, c: Seq<u8>)
    requires
        bytes_le(a, b),
        bytes_le(b, c),
    ensures
        bytes_le(a, c),
    decreases a.len(),
{
    if a.len() > 0 && b.len() > 0 && c.len() > 0 && a[0] == b[0] && b[0] == c[0] {
        lemma_bytes_le_transitive(a.drop_first(), b.drop_first(), c.drop_first());
    }
}

proof fn lemma_entry_le_total(a: TreeNode, b: TreeNode)
    ensures
        entry_le(a, b) || entry_le(b, a),
{
    lemma_bytes_le_total(node_name(a), node_name(b));
}

proof fn lemma_entry_le_transitive(a: TreeNode, b: TreeNode, c: TreeNode)
    requires
        entry_le(a, b),
        entry_le(b, c),
    ensures
        entry_le(a, c),
{
    if node_is_dir(a) == node_is_dir(b) && node_is_dir(b) == node_is_dir(c) {
        lemma_bytes_le_transitive(node_name(a), node_name(b), node_name(c));
    }
}

/// Whether the entries at the listed indices come in listing order.
pub open spec fn listed_in_order(entries: Seq<TreeNode>, order: Seq<int>) -> bool {
    forall|a: int, b: int|
        0 <= a < b < order.len() ==> entry_le(entries[#[trigger] order[a]], entries[#[trigger] order[b]])
}

proof fn lemma_insert_index_elements(entries: Seq<TreeNode>, x: int, sorted: Seq<int>)
    ensures
        insert_index(entries, x, sorted).len() == sorted.len() + 1,
        forall|y: int|
            #[trigger] insert_index(entries, x, sorted).contains(y) <==> (y == x || sorted.contains(
                y,
            )),
    decreases sorted.len(),
{
    let r = insert_index(entries, x, sorted);
    if sorted.len() == 0 {
        assert forall|y: int| #[trigger] r.contains(y) <==> (y == x || sorted.contains(y)) by {
            if r.contains(y) {
                let k = choose|k: int| 0 <= k < r.len() && r[k] == y;
                assert(k == 0);
            }
            if y == x {
                assert(r[0] == y);
            }
        }
    } else if entry_le(entries[x], entries[sorted[0]]) {
        assert forall|y: int| #[trigger] r.contains(y) <==> (y == x || sorted.contains(y)) by {
            if r.contains(y) {
                let k = choose|k: int| 0 <= k < r.len() && r[k] == y;
                if k > 0 {
                    assert(sorted[k - 1] == y);
                }
            }
            if y == x {
                assert(r[0] == y);
            }
            if sorted.contains(y) {
                let k = choose|k: int| 0 <= k < sorted.len() && sorted[k] == y;
                assert(r[k + 1] == y);
            }
        }
    } else {
        let rest = sorted.drop_first();
        lemma_insert_index_elements(entries, x, rest);
        let ir = insert_index(entries, x, rest);
        assert(r =~= seq![sorted[0]] + ir);
        assert forall|y: int| #[trigger] r.contains(y) <==> (y == x || sorted.contains(y)) by {
            if r.contains(y) {
                let k = choose|k: int| 0 <= k < r.len() && r[k] == y;
                if k > 0 {
                    assert(ir[k - 1] == y);
                    assert(ir.contains(y));
                    if y != x {
                        let j = choose|j: int| 0 <= j < rest.len() && rest[j] == y;
                        assert(sorted[j + 1] == y);
                    }
                } else {
                    assert(sorted[0] == y);
                }
            }
            if y == x {
                assert(ir.contains(y));
                let j = choose|j: int| 0 <= j < ir.len() && ir[j] == y;
                assert(r[j + 1] == y);
            }
            if sorted.contains(y) {
                let k = choose|k: int| 0 <= k < sorted.len() && sorted[k] == y;
                if k == 0 {
                    assert(r[0] == y);
                } else {
                    assert(rest[k - 1] == y);
                    assert(ir.contains(y));
                    let j = choose|j: int| 0 <= j < ir.len() && ir[j] == y;
                    assert(r[j + 1] == y);
                }
            }
        }
    }
}

proof fn lemma_insert_index_distinct(entries: Seq<TreeNode>, x: int, sorted: Seq<int>)
    requires
        sorted.no_duplicates(),
        !sorted.contains(x),
    ensures
        insert_index(entries, x, sorted).no_duplicates(),
    decreases sorted.len(),
{
    let r = insert_index(entries, x, sorted);
    if sorted.len() == 0 {
    } else if entry_le(entries[x], entries[sorted[0]]) {
        assert forall|i: int, j: int| 0 <= i < r.len() && 0 <= j < r.len() && i != j implies r[i]
            != r[j] by {
            if i > 0 && j > 0 {
                assert(sorted[i - 1] != sorted[j - 1]);
            } else if i == 0 {
                assert(r[j] == sorted[j - 1]);
            } else {
                assert(r[i] == sorted[i - 1]);
            }
        }
    } else {
        let rest = sorted.drop_first();
        assert(rest.no_duplicates()) by {
            assert forall|i: int, j: int| 0 <= i < rest.len() && 0 <= j < rest.len() && i != j implies rest[i]
                != rest[j] by {
                assert(sorted[i + 1] != sorted[j + 1]);
            }
        }
        assert(!rest.contains(x)) by {
            if rest.contains(x) {
                let k = choose|k: int| 0 <= k < rest.len() && rest[k] == x;
                assert(sorted[k + 1] == x);
            }
        }
        lemma_insert_index_distinct(entries, x, rest);
        lemma_insert_index_elements(entries, x, rest);
        let ir = insert_index(entries, x, rest);
        assert(r =~= seq![sorted[0]] + ir);
        assert(!ir.contains(sorted[0])) by {
            if ir.contains(sorted[0]) {
                if sorted[0] != x {
                    let k = choose|k: int| 0 <= k < rest.len() && rest[k] == sorted[0];
                    assert(sorted[k + 1] == sorted[0]);
                }
            }
        }
        assert forall|i: int, j: int| 0 <= i < r.len() && 0 <= j < r.len() && i != j implies r[i]
            != r[j] by {
            if i > 0 && j > 0 {
                assert(ir[i - 1] != ir[j - 1]);
            } else if i == 0 {
                assert(r[j] == ir[j - 1]);
                assert(ir.contains(r[j]));
            } else {
                assert(r[i] == ir[i - 1]);
                assert(ir.contains(r[i]));
            }
        }
    }
}

proof fn lemma_insert_index_ordered(entries: Seq<TreeNode>, x: int, sorted: Seq<int>)
    requires
        listed_in_order(entries, sorted),
    ensures
        listed_in_order(entries, insert_index(entries, x, sorted)),
    decreases sorted.len(),
{
    let r = insert_index(entries, x, sorted);
    if sorted.len() == 0 {
    } else if entry_le(entries[x], entries[sorted[0]]) {
        assert forall|a: int, b: int| 0 <= a < b < r.len() implies entry_le(
            entries[#[trigger] r[a]],
            entries[#[trigger] r[b]],
        ) by {
            if a == 0 {
                if b > 1 {
                    assert(entry_le(entries[sorted[0]], entries[sorted[b - 1]]));
                    lemma_entry_le_transitive(entries[x], entries[sorted[0]], entries[sorted[b - 1]]);
                }
            } else {
                assert(r[a] == sorted[a - 1] && r[b] == sorted[b - 1]);
            }
        }
    } else {
        let rest = sorted.drop_first();
        assert(listed_in_order(entries, rest)) by {
            assert forall|a: int, b: int| 0 <= a < b < rest.len() implies entry_le(
                entries[#[trigger] rest[a]],
                entries[#[trigger] rest[b]],
            ) by {
                assert(rest[a] == sorted[a + 1] && rest[b] == sorted[b + 1]);
            }
        }
        lemma_insert_index_ordered(entries, x, rest);
        lemma_insert_index_elements(entries, x, rest);
        lemma_entry_le_total(entries[x], entries[sorted[0]]);
        let ir = insert_index(entries, x, rest);
        assert(r =~= seq![sorted[0]] + ir);
        assert forall|a: int, b: int| 0 <= a < b < r.len() implies entry_le(
            entries[#[trigger] r[a]],
            entries[#[trigger] r[b]],
        ) by {
            if a == 0 {
                let y = ir[b - 1];
                assert(ir.contains(y));
                if y != x {
                    let k = choose|k: int| 0 <= k < rest.len() && rest[k] == y;
                    assert(sorted[k + 1] == y);
                    assert(entry_le(entries[sorted[0]], entries[sorted[k + 1]]));
                }
            } else {
                assert(r[a] == ir[a - 1] && r[b] == ir[b - 1]);
            }
        }
    }
}

proof fn lemma_sort_order_from(entries: Seq<TreeNode>, start: int)
    requires
        0 <= start <= entries.len(),
    ensures
        sort_order_from(entries, start).len() == entries.len() - start,
        forall|k: int|
            0 <= k < sort_order_from(entries, start).len() ==> start <= #[trigger] sort_order_from(
                entries,
                start,
            )[k] < entries.len(),
        sort_order_from(entries, start).no_duplicates(),
        listed_in_order(entries, sort_order_from(entries, start)),
    decreases entries.len() - start,
{
    if start < entries.len() {
        lemma_sort_order_from(entries, start + 1);
        let rest = sort_order_from(entries, start + 1);
        let r = sort_order_from(entries, start);
        lemma_insert_index_elements(entries, start, rest);
        assert(!rest.contains(start)) by {
            if rest.contains(start) {
                let k = choose|k: int| 0 <= k < rest.len() && rest[k] == start;
            }
        }
        lemma_insert_index_distinct(entries, start, rest);
        lemma_insert_index_ordered(entries, start, rest);
        assert forall|k: int| 0 <= k < r.len() implies start <= #[trigger] r[k] < entries.len() by {
            assert(r.contains(r[k]));
            if r[k] != start {
                let j = choose|j: int| 0 <= j < rest.len() && rest[j] == r[k];
            }
        }
    }
}

/// A directory's listing order names each of its entries exactly once: it
/// has as many indices as there are entries, each in range, none twice.
pub proof fn law_listing_order_is_permutation(entries: Seq<TreeNode>)
    ensures
        sort_order(entries).len() == entries.len(),
        forall|k: int|
            0 <= k < sort_order(entries).len() ==> 0 <= #[trigger] sort_order(entries)[k]
                < entries.len(),
        sort_order(entries).no_duplicates(),
{
    lemma_sort_order_from(entries, 0);
}

/// A directory's entries are listed in order: directories before files, and
/// within each kind by name in byte order.
pub proof fn law_listing_is_ordered(entries: Seq<TreeNode>)
    ensures
        listed_in_order(entries, sort_order(entries)),
        forall|a: int, b: int|
            0 <= a < b < sort_order(entries).len() && node_is_dir(
                entries[#[trigger] sort_order(entries)[b]],
            ) ==> node_is_dir(entries[#[trigger] sort_order(entries)[a]]),
{
    lemma_sort_order_from(entries, 0);
    let o = sort_order(entries);
    assert forall|a: int, b: int|
        0 <= a < b < o.len() && node_is_dir(entries[#[trigger] o[b]]) implies node_is_dir(
        entries[#[trigger] o[a]],
    ) by {
        assert(entry_le(entries[o[a]], entries[o[b]]));
    }
}

/// Whether entries that may each be listed before the other (same kind,
/// same name) appear in the order in which they were read.
pub open spec fn keeps_read_order(entries: Seq<TreeNode>, order: Seq<int>) -> bool {
    forall|a: int, b: int|
        0 <= a < b < order.len() && entry_le(entries[#[trigger] order[b]], entries[#[trigger] order[a]])
            ==> order[a] < order[b]
}

proof fn lemma_insert_index_stable(entries: Seq<TreeNode>, x: int, sorted: Seq<int>)
    requires
        keeps_read_order(entries, sorted),
        forall|k: int| 0 <= k < sorted.len() ==> x < #[trigger] sorted[k],
    ensures
        keeps_read_order(entries, insert_index(entries, x, sorted)),
    decreases sorted.len(),
{
    let r = insert_index(entries, x, sorted);
    if sorted.len() == 0 {
    } else if entry_le(entries[x], entries[sorted[0]]) {
        assert forall|a: int, b: int|
            0 <= a < b < r.len() && entry_le(entries[#[trigger] r[b]], entries[#[trigger] r[a]])
                implies r[a] < r[b] by {
            if a > 0 {
                assert(r[a] == sorted[a - 1] && r[b] == sorted[b - 1]);
            } else {
                assert(r[b] == sorted[b - 1]);
            }
        }
    } else {
        let rest = sorted.drop_first();
        assert(keeps_read_order(entries, rest)) by {
            assert forall|a: int, b: int|
                0 <= a < b < rest.len() && entry_le(
                    entries[#[trigger] rest[b]],
                    entries[#[trigger] rest[a]],
                ) implies rest[a] < rest[b] by {
                assert(rest[a] == sorted[a + 1] && rest[b] == sorted[b + 1]);
            }
        }
        assert forall|k: int| 0 <= k < rest.len() implies x < #[trigger] rest[k] by {
            assert(rest[k] == sorted[k + 1]);
        }
        lemma_insert_index_stable(entries, x, rest);
        lemma_insert_index_elements(entries, x, rest);
        let ir = insert_index(entries, x, rest);
        assert(r =~= seq![sorted[0]] + ir);
        assert forall|a: int, b: int|
            0 <= a < b < r.len() && entry_le(entries[#[trigger] r[b]], entries[#[trigger] r[a]])
                implies r[a] < r[b] by {
            if a == 0 {
                let y = ir[b - 1];
                assert(ir.contains(y));
                if y != x {
                    let k = choose|k: int| 0 <= k < rest.len() && rest[k] == y;
                    assert(sorted[k + 1] == y);
                }
            } else {
                assert(r[a] == ir[a - 1] && r[b] == ir[b - 1]);
            }
        }
    }
}

proof fn lemma_sort_order_from_stable(entries: Seq<TreeNode>, start: int)
    requires
        0 <= start <= entries.len(),
    ensures
        keeps_read_order(entries, sort_order_from(entries, start)),
    decreases entries.len() - start,
{
    if start < entries.len() {
        lemma_sort_order_from_stable(entries, start + 1);
        lemma_sort_order_from(entries, start + 1);
        lemma_insert_index_stable(entries, start, sort_order_from(entries, start + 1));
    }
}

/// The listing is stable: entries of the same kind and name are listed in
/// the order in which they were read.
pub proof fn law_listing_is_stable(entries: Seq<TreeNode>)
    ensures
        keeps_read_order(entries, sort_order(entries)),
{
    lemma_sort_order_from_stable(entries, 0);
}

/// The entries at the listed indices, in that order.
pub open spec fn entries_at(entries: Seq<TreeNode>, order: Seq<int>) -> Seq<TreeNode> {
    order.map_values(|k: int| entries[k])
}

/// No two entries (at different positions) have the same kind and name.
pub open spec fn distinct_keys(entries: Seq<TreeNode>) -> bool {
    forall|i: int, j: int|
        0 <= i < entries.len() && 0 <= j < entries.len() && i != j ==> !(entry_le(
            #[trigger] entries[i],
            #[trigger] entries[j],
        ) && entry_le(entries[j], entries[i]))
}

/// Each entry comes strictly before the later ones.
pub open spec fn strictly_ordered(s: Seq<TreeNode>) -> bool {
    forall|a: int, b: int|
        0 <= a < b < s.len() ==> entry_le(#[trigger] s[a], #[trigger] s[b]) && !entry_le(s[b], s[a])
}

proof fn lemma_insert_index_multiset(entries: Seq<TreeNode>, x: int, sorted: Seq<int>)
    ensures
        entries_at(entries, insert_index(entries, x, sorted)).to_multiset() =~= entries_at(
            entries,
            sorted,
        ).to_multiset().insert(entries[x]),
    decreases sorted.len(),
{
    broadcast use vstd::seq_lib::group_to_multiset_ensures;

    let r = insert_index(entries, x, sorted);
    if sorted.len() == 0 {
        assert(entries_at(entries, r) =~= entries_at(entries, sorted).insert(0, entries[x]));
    } else if entry_le(entries[x], entries[sorted[0]]) {
        assert(entries_at(entries, r) =~= entries_at(entries, sorted).insert(0, entries[x]));
    } else {
        let rest = sorted.drop_first();
        lemma_insert_index_multiset(entries, x, rest);
        let ir = insert_index(entries, x, rest);
        assert(entries_at(entries, r) =~= entries_at(entries, ir).insert(0, entries[sorted[0]]));
        assert(entries_at(entries, sorted) =~= entries_at(entries, rest).insert(
            0,
            entries[sorted[0]],
        ));
    }
}

proof fn lemma_sort_order_from_multiset(entries: Seq<TreeNode>, start: int)
    requires
        0 <= start <= entries.len(),
    ensures
        entries_at(entries, sort_order_from(entries, start)).to_multiset() =~= entries.skip(
            start,
        ).to_multiset(),
    decreases entries.len() - start,
{
    broadcast use vstd::seq_lib::group_to_multiset_ensures;

    if start == entries.len() {
        assert(entries_at(entries, sort_order_from(entries, start)) =~= entries.skip(start));
    } else {
        lemma_sort_order_from_multiset(entries, start + 1);
        lemma_insert_index_multiset(entries, start, sort_order_from(entries, start + 1));
        assert(entries.skip(start) =~= entries.skip(start + 1).insert(0, entries[start]));
    }
}

proof fn lemma_listing_strictly_ordered(entries: Seq<TreeNode>)
    requires
        distinct_keys(entries),
    ensures
        strictly_ordered(entries_at(entries, sort_order(entries))),
{
    law_listing_order_is_permutation(entries);
    law_listing_is_ordered(entries);
    let o = sort_order(entries);
    let s = entries_at(entries, o);
    assert forall|a: int, b: int| 0 <= a < b < s.len() implies entry_le(
        #[trigger] s[a],
        #[trigger] s[b],
    ) && !entry_le(s[b], s[a]) by {
        assert(s[a] == entries[o[a]] && s[b] == entries[o[b]]);
        assert(o[a] != o[b]);
        assert(entry_le(entries[o[a]], entries[o[b]]));
        assert(!(entry_le(entries[o[a]], entries[o[b]]) && entry_le(
            entries[o[b]],
            entries[o[a]],
        )));
    }
}

proof fn lemma_strictly_ordered_unique(s1: Seq<TreeNode>, s2: Seq<TreeNode>)
    requires
        strictly_ordered(s1),
        strictly_ordered(s2),
        s1.to_multiset() == s2.to_multiset(),
    ensures
        s1 == s2,
    decreases s1.len(),
{
    broadcast use vstd::seq_lib::group_to_multiset_ensures;

    if s1.len() == 0 {
        assert(s2.len() == 0);
        assert(s1 =~= s2);
    } else {
        vstd::seq_lib::to_multiset_len(s1);
        vstd::seq_lib::to_multiset_len(s2);
        assert(s2.len() == s1.len());
        assert(s1.to_multiset().count(s1[0]) > 0);
        assert(s2.contains(s1[0]));
        let j = choose|j: int| 0 <= j < s2.len() && s2[j] == s1[0];
        assert(s2.to_multiset().count(s2[0]) > 0);
        assert(s1.contains(s2[0]));
        let i = choose|i: int| 0 <= i < s1.len() && s1[i] == s2[0];
        if j > 0 {
            assert(entry_le(s2[0], s2[j]) && !entry_le(s2[j], s2[0]));
            if i > 0 {
                assert(entry_le(s1[0], s1[i]));
            } else {
                lemma_entry_le_total(s2[0], s2[0]);
            }
        }
        assert(s1[0] == s2[0]);
        let r1 = s1.drop_first();
        let r2 = s2.drop_first();
        assert(s1.remove(0) =~= r1);
        assert(s2.remove(0) =~= r2);
        assert(r1.to_multiset() =~= r2.to_multiset());
        assert(strictly_ordered(r1)) by {
            assert forall|a: int, b: int| 0 <= a < b < r1.len() implies entry_le(
                #[trigger] r1[a],
                #[trigger] r1[b],
            ) && !entry_le(r1[b], r1[a]) by {
                assert(r1[a] == s1[a + 1] && r1[b] == s1[b + 1]);
            }
        }
        assert(strictly_ordered(r2)) by {
            assert forall|a: int, b: int| 0 <= a < b < r2.len() implies entry_le(
                #[trigger] r2[a],
                #[trigger] r2[b],
            ) && !entry_le(r2[b], r2[a]) by {
                assert(r2[a] == s2[a + 1] && r2[b] == s2[b + 1]);
            }
        }
        lemma_strictly_ordered_unique(r1, r2);
        assert(s1 =~= s2) by {
            assert forall|k: int| 0 <= k < s1.len() implies s1[k] == s2[k] by {
                if k > 0 {
                    assert(s1[k] == r1[k - 1] && s2[k] == r2[k - 1]);
                }
            }
        }
    }
}

/// The listing of a directory does not depend on the order in which its
/// entries were read: the same entries, read in any order, are listed in
/// the same order (entries of one directory never share both kind and
/// name).
pub proof fn law_listing_ignores_read_order(e1: Seq<TreeNode>, e2: Seq<TreeNode>)
    requires
        e1.to_multiset() == e2.to_multiset(),
        distinct_keys(e1),
        distinct_keys(e2),
    ensures
        entries_at(e1, sort_order(e1)) == entries_at(e2, sort_order(e2)),
{
    lemma_sort_order_from_multiset(e1, 0);
    lemma_sort_order_from_multiset(e2, 0);
    assert(e1.skip(0) =~= e1);
    assert(e2.skip(0) =~= e2);
    lemma_listing_strictly_ordered(e1);
    lemma_listing_strictly_ordered(e2);
    lemma_strictly_ordered_unique(entries_at(e1, sort_order(e1)), entries_at(e2, sort_order(e2)));
}

proof fn lemma_items_same_listing(d1: TreeNode, d2: TreeNode, prefix: Seq<char>, k: int)
    requires
        d1 is Dir,
        d2 is Dir,
        entries_at(d1->Dir_children@, sort_order(d1->Dir_children@)) == entries_at(
            d2->Dir_children@,
            sort_order(d2->Dir_children@),
        ),
        0 <= k <= sort_order(d1->Dir_children@).len(),
    ensures
        render_items(d1, prefix, k) == render_items(d2, prefix, k),
    decreases k,
{
    let c1 = d1->Dir_children@;
    let c2 = d2->Dir_children@;
    law_listing_order_is_permutation(c1);
    law_listing_order_is_permutation(c2);
    let o1 = sort_order(c1);
    let o2 = sort_order(c2);
    assert(entries_at(c1, o1).len() == o1.len());
    assert(entries_at(c2, o2).len() == o2.len());
    assert(o1.len() == o2.len());
    if k > 0 {
        lemma_items_same_listing(d1, d2, prefix, k - 1);
        assert(entries_at(c1, o1)[k - 1] == c1[o1[k - 1]]);
        assert(entries_at(c2, o2)[k - 1] == c2[o2[k - 1]]);
    }
}

/// The page of a directory does not depend on the order in which its
/// entries were read: the same entries, read in any order, give the same
/// HTML.
pub proof fn law_page_ignores_read_order(
    name: Option<Vec<u8>>,
    c1: Vec<TreeNode>,
    c2: Vec<TreeNode>,
    prefix: Seq<char>,
)
    requires
        c1@.to_multiset() == c2@.to_multiset(),
        distinct_keys(c1@),
        distinct_keys(c2@),
    ensures
        render_node(TreeNode::Dir { name, children: c1 }, prefix) == render_node(
            TreeNode::Dir { name, children: c2 },
            prefix,
        ),
{
    broadcast use vstd::seq_lib::group_to_multiset_ensures;

    law_listing_ignores_read_order(c1@, c2@);
    law_listing_order_is_permutation(c1@);
    law_listing_order_is_permutation(c2@);
    let d1 = TreeNode::Dir { name, children: c1 };
    let d2 = TreeNode::Dir { name, children: c2 };
    vstd::seq_lib::to_multiset_len(c1@);
    vstd::seq_lib::to_multiset_len(c2@);
    assert(c1@.len() == c2@.len());
    lemma_items_same_listing(d1, d2, prefix, sort_order(c1@).len() as int);
}

/// The name shown for an entry: its name when that is UTF-8 text, `/`
/// otherwise (and when it has none).
pub open spec fn display_name(name: Option<Vec<u8>>) -> Seq<char> {
    match name {
        Some(v) => if valid_utf8(v@) {
            decode_utf8(v@)
        } else {
            "/"@
        },
        None => "/"@,
    }
}

/// The size column: the human readable size, `-` when unknown.
pub open spec fn size_text(size: Option<u64>) -> Seq<char> {
    match size {
        Some(n) => spec_format_size(n),
        None => "-"@,
    }
}

/// The date column: the modification time, `-` when unknown.
pub open spec fn date_text(modified: Option<String>) -> Seq<char> {
    match modified {
        Some(d) => d@,
        None => "-"@,
    }
}

/// The direct link of a file: the prefix, `/` and the encoded path.
pub open spec fn file_link(prefix: Seq<char>, encoded: Seq<char>) -> Seq<char> {
    prefix + FILE_LINK_SLASH@ + encoded
}

/// One file row, from its parts: the icon, the name linked to the file's
/// direct link, the size, the date, a control that copies the direct link,
/// and a control that shows the QR code of the short id.
pub open spec fn spec_file_row(
    icon: Seq<char>,
    prefix: Seq<char>,
    encoded: Seq<char>,
    name: Seq<char>,
    size: Seq<char>,
    date: Seq<char>,
    short_id: Seq<char>,
) -> Seq<char> {
    FILE_ICON_OPEN@ + icon + FILE_LINK_OPEN@ + file_link(prefix, encoded) + FILE_LINK_CLOSE@
        + name + FILE_SIZE_OPEN@ + size + FILE_DATE_OPEN@ + date + FILE_COPY_OPEN@ + file_link(
        prefix,
        encoded,
    ) + FILE_QR_OPEN@ + short_id + FILE_CLOSE@
}

/// The HTML of an entry: a directory is an open `details` element whose
/// summary is its name and whose list holds its entries in listing order,
/// each in an `li`; a file under the served directory is a row with its
/// icon, link, name, size, date and short id; any other file adds nothing.
pub open spec fn render_node(node: TreeNode, prefix: Seq<char>) -> Seq<char>
    decreases node, 1int, 0int,
{
    match node {
        TreeNode::Dir { name, children } => "<details open><summary>"@ + display_name(name)
            + "</summary><ul>"@ + render_items(node, prefix, sort_order(children@).len() as int)
            + "</ul></details>"@,
        TreeNode::File { name, rel_path, size, modified } => match rel_path {
            Some(p) => spec_file_row(
                icon_text(spec_file_kind(node_name(node))),
                prefix,
                spec_encode_path(p@),
                display_name(name),
                size_text(size),
                date_text(modified),
                spec_short_id(p@),
            ),
            None => Seq::empty(),
        },
    }
}

/// The first `k` list items of a directory, in listing order.
pub open spec fn render_items(dir: TreeNode, prefix: Seq<char>, k: int) -> Seq<char>
    decreases dir, 0int, k,
{
    match dir {
        TreeNode::Dir { name, children } => {
            let order = sort_order(children@);
            if k <= 0 || k > order.len() {
                Seq::empty()
            } else {
                let j = order[k - 1];
                render_items(dir, prefix, k - 1) + if 0 <= j < children@.len() {
                    "<li>"@ + render_node(children@[j], prefix) + "</li>"@
                } else {
                    Seq::empty()
                }
            }
        },
        TreeNode::File { .. } => Seq::empty(),
    }
}

/// The name shown for an entry (see `display_name`).
fn shown_name(name: &Option<Vec<u8>>) -> (s: &str)
    ensures
        s@ == display_name(*name),
{
    match name {
        Some(v) => match utf8_text(v.as_slice()) {
            Some(t) => t,
            None => "/",
        },
        None => "/",
    }
}

/// Appends one file row (see `spec_file_row`).
fn push_file_row(
    html: &mut String,
    icon: &str,
    prefix: &str,
    encoded: &str,
    name: &str,
    size: &str,
    date: &str,
    short_id: &str,
)
    ensures
        final(html)@ == old(html)@ + spec_file_row(
            icon@,
            prefix@,
            encoded@,
            name@,
            size@,
            date@,
            short_id@,
        ),
{
    html.append(FILE_ICON_OPEN);
    html.append(icon);
    html.append(FILE_LINK_OPEN);
    html.append(prefix);
    html.append(FILE_LINK_SLASH);
    html.append(encoded);
    html.append(FILE_LINK_CLOSE);
    html.append(name);
    html.append(FILE_SIZE_OPEN);
    html.append(size);
    html.append(FILE_DATE_OPEN);
    html.append(date);
    html.append(FILE_COPY_OPEN);
    html.append(prefix);
    html.append(FILE_LINK_SLASH);
    html.append(encoded);
    html.append(FILE_QR_OPEN);
    html.append(short_id);
    html.append(FILE_CLOSE);
    assert(final(html)@ =~= old(html)@ + spec_file_row(
        icon@,
        prefix@,
        encoded@,
        name@,
        size@,
        date@,
        short_id@,
    ));
}

/// Appends the HTML of `node` (see `render_node`) to `html`; `prefix` is
/// the URL prefix under which the files are served.
pub fn render_html_recursive(node: &TreeNode, prefix: &str, html: &mut String)
    ensures
        final(html)@ == old(html)@ + render_node(*node, prefix@),
    decreases node,
{
    match node {
        TreeNode::Dir { name, children } => {
            html.append("<details open><summary>");
            html.append(shown_name(name));
            html.append("</summary><ul>");
            let order = listing_order(children);
            proof {
                law_listing_order_is_permutation(children@);
                assert forall|q: int| 0 <= q < order@.len() implies 0 <= #[trigger] order@[q]
                    < children@.len() by {
                    assert(sort_order(children@)[q] == order@.map_values(|i: usize| i as int)[q]);
                }
            }
            let ghost start = html@;
            let mut k: usize = 0;
            while k < order.len()
                invariant
                    k <= order@.len(),
                    order@.map_values(|i: usize| i as int) == sort_order(children@),
                    forall|q: int| 0 <= q < order@.len() ==> 0 <= #[trigger] order@[q] < children@.len(),
                    html@ == start + render_items(*node, prefix@, k as int),
                    *node == (TreeNode::Dir { name: *name, children: *children }),
                decreases order@.len() - k,
            {
                let j = order[k];
                assert(sort_order(children@)[k as int] == j as int);
                html.append("<li>");
                render_html_recursive(&children[j], prefix, html);
                html.append("</li>");
                k = k + 1;
                assert(html@ =~= start + render_items(*node, prefix@, k as int));
            }
            html.append("</ul></details>");
            assert(final(html)@ =~= old(html)@ + render_node(*node, prefix@));
        },
        TreeNode::File { name, rel_path, size, modified } => {
            match rel_path {
                Some(p) => {
                    let empty: Vec<u8> = Vec::new();
                    let raw: &Vec<u8> = match name {
                        Some(v) => v,
                        None => &empty,
                    };
                    let icon = get_file_icon(raw.as_slice());
                    let encoded = encode_path(p.as_str());
                    let short_id = hash_path(p.as_str());
                    let size_str: String = match size {
                        Some(n) => format_size(*n),
                        None => "-".to_owned(),
                    };
                    let date_str: &str = match modified {
                        Some(d) => d.as_str(),
                        None => "-",
                    };
                    push_file_row(
                        html,
                        icon,
                        prefix,
                        encoded.as_str(),
                        shown_name(name),
                        size_str.as_str(),
                        date_str,
                        short_id.as_str(),
                    );
                    assert(final(html)@ =~= old(html)@ + render_node(*node, prefix@));
                },
                None => {
                    assert(final(html)@ =~= old(html)@ + render_node(*node, prefix@));
                },
            }
        },
    }
}

/// How many files the tree shows as rows: files under the served
/// directory, at any depth.
pub open spec fn file_count(node: TreeNode) -> nat
    decreases node, 1int, 0int,
{
    match node {
        TreeNode::Dir { children, .. } => children_file_count(node, children@.len() as int),
        TreeNode::File { rel_path, .. } => if rel_path is Some {
            1
        } else {
            0
        },
    }
}

/// The file count of the first `k` entries of a directory.
pub open spec fn children_file_count(dir: TreeNode, k: int) -> nat
    decreases dir, 0int, k,
{
    match dir {
        TreeNode::Dir { children, .. } => if k <= 0 || k > children@.len() {
            0
        } else {
            children_file_count(dir, k - 1) + file_count(children@[k - 1])
        },
        TreeNode::File { .. } => 0,
    }
}

/// The sum of the known sizes of the files the tree shows as rows.
pub open spec fn total_size(node: TreeNode) -> nat
    decreases node, 1int, 0int,
{
    match node {
        TreeNode::Dir { children, .. } => children_total_size(node, children@.len() as int),
        TreeNode::File { rel_path, size, .. } => match (rel_path, size) {
            (Some(_), Some(n)) => n as nat,
            _ => 0,
        },
    }
}

/// The total size of the first `k` entries of a directory.
pub open spec fn children_total_size(dir: TreeNode, k: int) -> nat
    decreases dir, 0int, k,
{
    match dir {
        TreeNode::Dir { children, .. } => if k <= 0 || k > children@.len() {
            0
        } else {
            children_total_size(dir, k - 1) + total_size(children@[k - 1])
        },
        TreeNode::File { .. } => 0,
    }
}

/// `x`, or the largest `u64` when `x` is larger.
pub open spec fn capped(x: nat) -> u64 {
    if x > u64::MAX {
        u64::MAX
    } else {
        x as u64
    }
}

/// The file count and the total size of the files that the tree shows as
/// rows, each capped at the largest `u64`.
pub fn tree_stats(node: &TreeNode) -> (r: (u64, u64))
    ensures
        r.0 == capped(file_count(*node)),
        r.1 == capped(total_size(*node)),
    decreases node,
{
    match node {
        TreeNode::Dir { name, children } => {
            let mut count: u64 = 0;
            let mut size: u64 = 0;
            let mut k: usize = 0;
            while k < children.len()
                invariant
                    k <= children@.len(),
                    *node == (TreeNode::Dir { name: *name, children: *children }),
                    count == capped(children_file_count(*node, k as int)),
                    size == capped(children_total_size(*node, k as int)),
                decreases children@.len() - k,
            {
                proof {
                    assert(decreases_to!(*node => children@[k as int]));
                }
                let (c, t) = tree_stats(&children[k]);
                count = count.saturating_add(c);
                size = size.saturating_add(t);
                k = k + 1;
            }
            (count, size)
        },
        TreeNode::File { rel_path, size, .. } => match rel_path {
            Some(_) => match size {
                Some(n) => (1, *n),
                None => (1, 0),
            },
            None => (0, 0),
        },
    }
}

/// Two trees that differ at most in the order in which the entries of each
/// directory were read: files are equal, and directories have the same name
/// and children that can be matched one for one (the children of `n2`,
/// rearranged, are the children of `n1` up to read order in turn).
pub open spec fn same_tree_up_to_read_order(n1: TreeNode, n2: TreeNode) -> bool
    decreases n1,
{
    match n1 {
        TreeNode::File { .. } => n2 == n1,
        TreeNode::Dir { name, children } => match n2 {
            TreeNode::Dir { name: name2, children: children2 } => name == name2 && exists|
                d: Seq<TreeNode>,
            |
                #![trigger d.to_multiset()]
                d.len() == children@.len() && d.to_multiset() == children2@.to_multiset() && forall|
                    i: int,
                |
                    #![trigger d[i]]
                    0 <= i < d.len() ==> same_tree_up_to_read_order(children@[i], d[i]),
            TreeNode::File { .. } => false,
        },
    }
}

/// In every directory of the tree, no two entries share both kind and name
/// (as in any directory of a file system).
pub open spec fn distinct_at_every_depth(n: TreeNode) -> bool
    decreases n,
{
    match n {
        TreeNode::Dir { children, .. } => distinct_keys(children@) && forall|i: int|
            0 <= i < children@.len() ==> distinct_at_every_depth(#[trigger] children@[i]),
        TreeNode::File { .. } => true,
    }
}

/// Every tree is the same as itself up to read order.
pub proof fn law_same_tree_up_to_read_order_is_reflexive(n: TreeNode)
    ensures
        same_tree_up_to_read_order(n, n),
    decreases n,
{
    match n {
        TreeNode::File { .. } => {},
        TreeNode::Dir { children, .. } => {
            let d = children@;
            assert forall|i: int| 0 <= i < d.len() implies same_tree_up_to_read_order(
                children@[i],
                #[trigger] d[i],
            ) by {
                assert(decreases_to!(n => children@[i]));
                law_same_tree_up_to_read_order_is_reflexive(children@[i]);
            }
            assert(d.to_multiset() == children@.to_multiset());
        },
    }
}

proof fn lemma_same_tree_keys(n1: TreeNode, n2: TreeNode)
    requires
        same_tree_up_to_read_order(n1, n2),
    ensures
        node_is_dir(n1) == node_is_dir(n2),
        node_name(n1) == node_name(n2),
{
}

/// Whether the entries at each position have the same kind and name.
spec fn same_keys(a: Seq<TreeNode>, b: Seq<TreeNode>) -> bool {
    &&& a.len() == b.len()
    &&& forall|i: int|
        #![trigger a[i]]
        #![trigger b[i]]
        0 <= i < a.len() ==> node_is_dir(a[i]) == node_is_dir(b[i]) && node_name(a[i])
            == node_name(b[i])
}

proof fn lemma_insert_index_same_keys(a: Seq<TreeNode>, b: Seq<TreeNode>, x: int, sorted: Seq<int>)
    requires
        same_keys(a, b),
        0 <= x < a.len(),
        forall|k: int| 0 <= k < sorted.len() ==> 0 <= #[trigger] sorted[k] < a.len(),
    ensures
        insert_index(a, x, sorted) == insert_index(b, x, sorted),
    decreases sorted.len(),
{
    if sorted.len() > 0 {
        let rest = sorted.drop_first();
        assert forall|k: int| 0 <= k < rest.len() implies 0 <= #[trigger] rest[k] < a.len() by {
            assert(rest[k] == sorted[k + 1]);
        }
        lemma_insert_index_same_keys(a, b, x, rest);
        assert(a[x] == a[x] && b[x] == b[x]);
        assert(a[sorted[0]] == a[sorted[0]] && b[sorted[0]] == b[sorted[0]]);
    }
}

proof fn lemma_sort_order_from_same_keys(a: Seq<TreeNode>, b: Seq<TreeNode>, start: int)
    requires
        same_keys(a, b),
        0 <= start <= a.len(),
    ensures
        sort_order_from(a, start) == sort_order_from(b, start),
    decreases a.len() - start,
{
    if start < a.len() {
        lemma_sort_order_from_same_keys(a, b, start + 1);
        lemma_sort_order_from(a, start + 1);
        lemma_insert_index_same_keys(a, b, start, sort_order_from(a, start + 1));
    }
}

proof fn lemma_same_keys_distinct(a: Seq<TreeNode>, b: Seq<TreeNode>)
    requires
        same_keys(a, b),
        distinct_keys(a),
    ensures
        distinct_keys(b),
{
    assert forall|i: int, j: int|
        0 <= i < b.len() && 0 <= j < b.len() && i != j implies !(entry_le(
        #[trigger] b[i],
        #[trigger] b[j],
    ) && entry_le(b[j], b[i])) by {
        assert(a[i] == a[i] && a[j] == a[j]);
        assert(!(entry_le(a[i], a[j]) && entry_le(a[j], a[i])));
    }
}

/// What the rendering of a directory `n1` and of a directory `n2` have in
/// common when `d` is `n2`'s entries rearranged to match `n1`'s one for one.
spec fn matched_listings(n1: TreeNode, n2: TreeNode, d: Seq<TreeNode>) -> bool {
    &&& n1 is Dir
    &&& n2 is Dir
    &&& d.len() == n1->Dir_children@.len()
    &&& forall|i: int|
        #![trigger d[i]]
        0 <= i < d.len() ==> same_tree_up_to_read_order(n1->Dir_children@[i], d[i])
    &&& sort_order(n1->Dir_children@) == sort_order(d)
    &&& entries_at(d, sort_order(d)) == entries_at(
        n2->Dir_children@,
        sort_order(n2->Dir_children@),
    )
}

proof fn lemma_matched_items_render_same(
    n1: TreeNode,
    n2: TreeNode,
    d: Seq<TreeNode>,
    prefix: Seq<char>,
    k: int,
)
    requires
        matched_listings(n1, n2, d),
        distinct_at_every_depth(n1),
        distinct_at_every_depth(n2),
        0 <= k <= d.len(),
    ensures
        render_items(n1, prefix, k) == render_items(n2, prefix, k),
    decreases n1, 0int, k,
{
    let c1 = n1->Dir_children@;
    let c2 = n2->Dir_children@;
    law_listing_order_is_permutation(c1);
    law_listing_order_is_permutation(c2);
    law_listing_order_is_permutation(d);
    let o = sort_order(c1);
    let o2 = sort_order(c2);
    assert(entries_at(d, o).len() == o.len());
    assert(entries_at(c2, o2).len() == o2.len());
    if k > 0 {
        lemma_matched_items_render_same(n1, n2, d, prefix, k - 1);
        let j1 = o[k - 1];
        let j2 = o2[k - 1];
        assert(entries_at(d, o)[k - 1] == d[j1]);
        assert(entries_at(c2, o2)[k - 1] == c2[j2]);
        assert(same_tree_up_to_read_order(c1[j1], d[j1]));
        assert(distinct_at_every_depth(c1[j1]));
        assert(distinct_at_every_depth(c2[j2]));
        assert(decreases_to!(n1 => c1[j1]));
        lemma_same_tree_renders_same(c1[j1], c2[j2], prefix);
    }
}

proof fn lemma_same_tree_renders_same(n1: TreeNode, n2: TreeNode, prefix: Seq<char>)
    requires
        same_tree_up_to_read_order(n1, n2),
        distinct_at_every_depth(n1),
        distinct_at_every_depth(n2),
    ensures
        render_node(n1, prefix) == render_node(n2, prefix),
    decreases n1, 1int, 0int,
{
    broadcast use vstd::seq_lib::group_to_multiset_ensures;

    match n1 {
        TreeNode::File { .. } => {},
        TreeNode::Dir { name, children } => {
            let c1 = children@;
            let c2 = n2->Dir_children@;
            let d = choose|d: Seq<TreeNode>|
                #![trigger d.to_multiset()]
                d.len() == c1.len() && d.to_multiset() == c2.to_multiset() && forall|i: int|
                    #![trigger d[i]]
                    0 <= i < d.len() ==> same_tree_up_to_read_order(c1[i], d[i]);
            assert(same_keys(c1, d)) by {
                assert forall|i: int| 0 <= i < c1.len() implies node_is_dir(#[trigger] c1[i])
                    == node_is_dir(d[i]) && node_name(c1[i]) == node_name(d[i]) by {
                    assert(same_tree_up_to_read_order(c1[i], d[i]));
                    lemma_same_tree_keys(c1[i], d[i]);
                }
            }
            lemma_sort_order_from_same_keys(c1, d, 0);
            lemma_same_keys_distinct(c1, d);
            lemma_sort_order_from_multiset(d, 0);
            lemma_sort_order_from_multiset(c2, 0);
            assert(d.skip(0) =~= d);
            assert(c2.skip(0) =~= c2);
            lemma_listing_strictly_ordered(d);
            lemma_listing_strictly_ordered(c2);
            lemma_strictly_ordered_unique(entries_at(d, sort_order(d)), entries_at(c2, sort_order(c2)));
            law_listing_order_is_permutation(c1);
            lemma_matched_items_render_same(n1, n2, d, prefix, sort_order(c1).len() as int);
            vstd::seq_lib::to_multiset_len(d);
            vstd::seq_lib::to_multiset_len(c2);
            law_listing_order_is_permutation(c2);
        },
    }
}

/// The HTML of a tree does not depend on the order in which the entries of
/// any of its directories were read, at any depth (entries of one directory
/// never share both kind and name).
pub proof fn law_tree_html_ignores_read_order(n1: TreeNode, n2: TreeNode, prefix: Seq<char>)
    requires
        same_tree_up_to_read_order(n1, n2),
        distinct_at_every_depth(n1),
        distinct_at_every_depth(n2),
    ensures
        render_node(n1, prefix) == render_node(n2, prefix),
{
    lemma_same_tree_renders_same(n1, n2, prefix);
}

/// The file count and the total size of a sequence of entries.
spec fn stats_sum(s: Seq<TreeNode>) -> (nat, nat)
    decreases s.len(),
{
    if s.len() == 0 {
        (0, 0)
    } else {
        let r = stats_sum(s.drop_last());
        (r.0 + file_count(s.last()), r.1 + total_size(s.last()))
    }
}

proof fn lemma_children_stats(dir: TreeNode, k: int)
    requires
        dir is Dir,
        0 <= k <= dir->Dir_children@.len(),
    ensures
        children_file_count(dir, k) == stats_sum(dir->Dir_children@.take(k)).0,
        children_total_size(dir, k) == stats_sum(dir->Dir_children@.take(k)).1,
    decreases k,
{
    let c = dir->Dir_children@;
    if k > 0 {
        lemma_children_stats(dir, k - 1);
        assert(c.take(k).drop_last() =~= c.take(k - 1));
        assert(c.take(k).last() == c[k - 1]);
    } else {
        assert(c.take(0) =~= Seq::<TreeNode>::empty());
    }
}

proof fn lemma_stats_sum_remove(s: Seq<TreeNode>, j: int)
    requires
        0 <= j < s.len(),
    ensures
        stats_sum(s).0 == stats_sum(s.remove(j)).0 + file_count(s[j]),
        stats_sum(s).1 == stats_sum(s.remove(j)).1 + total_size(s[j]),
    decreases s.len(),
{
    if j == s.len() - 1 {
        assert(s.remove(j) =~= s.drop_last());
    } else {
        lemma_stats_sum_remove(s.drop_last(), j);
        assert(s.remove(j).drop_last() =~= s.drop_last().remove(j));
        assert(s.remove(j).last() == s.last());
    }
}

proof fn lemma_stats_sum_any_order(s1: Seq<TreeNode>, s2: Seq<TreeNode>)
    requires
        s1.to_multiset() == s2.to_multiset(),
    ensures
        stats_sum(s1) == stats_sum(s2),
    decreases s1.len(),
{
    broadcast use vstd::seq_lib::group_to_multiset_ensures;

    vstd::seq_lib::to_multiset_len(s1);
    vstd::seq_lib::to_multiset_len(s2);
    if s1.len() == 0 {
        assert(s2.len() == 0);
    } else {
        let x = s1.last();
        assert(s1.to_multiset().count(x) > 0);
        assert(s2.contains(x));
        let j = choose|j: int| 0 <= j < s2.len() && s2[j] == x;
        let r1 = s1.drop_last();
        let r2 = s2.remove(j);
        assert(s1 =~= r1.push(x));
        assert(r1.to_multiset() =~= s1.to_multiset().remove(x));
        assert(r2.to_multiset() =~= s2.to_multiset().remove(x));
        lemma_stats_sum_any_order(r1, r2);
        lemma_stats_sum_remove(s2, j);
    }
}

proof fn lemma_matched_stats(n1: TreeNode, d: Seq<TreeNode>, k: int)
    requires
        n1 is Dir,
        d.len() == n1->Dir_children@.len(),
        forall|i: int|
            #![trigger d[i]]
            0 <= i < d.len() ==> same_tree_up_to_read_order(n1->Dir_children@[i], d[i]),
        0 <= k <= d.len(),
    ensures
        stats_sum(n1->Dir_children@.take(k)) == stats_sum(d.take(k)),
    decreases n1, 0int, k,
{
    let c1 = n1->Dir_children@;
    if k > 0 {
        lemma_matched_stats(n1, d, k - 1);
        assert(c1.take(k).drop_last() =~= c1.take(k - 1));
        assert(d.take(k).drop_last() =~= d.take(k - 1));
        assert(same_tree_up_to_read_order(c1[k - 1], d[k - 1]));
        assert(decreases_to!(n1 => c1[k - 1]));
        lemma_same_tree_stats(c1[k - 1], d[k - 1]);
    }
}

proof fn lemma_same_tree_stats(n1: TreeNode, n2: TreeNode)
    requires
        same_tree_up_to_read_order(n1, n2),
    ensures
        file_count(n1) == file_count(n2),
        total_size(n1) == total_size(n2),
    decreases n1, 1int, 0int,
{
    broadcast use vstd::seq_lib::group_to_multiset_ensures;

    match n1 {
        TreeNode::File { .. } => {},
        TreeNode::Dir { name, children } => {
            let c1 = children@;
            let c2 = n2->Dir_children@;
            let d = choose|d: Seq<TreeNode>|
                #![trigger d.to_multiset()]
                d.len() == c1.len() && d.to_multiset() == c2.to_multiset() && forall|i: int|
                    #![trigger d[i]]
                    0 <= i < d.len() ==> same_tree_up_to_read_order(c1[i], d[i]);
            lemma_matched_stats(n1, d, c1.len() as int);
            lemma_stats_sum_any_order(d, c2);
            vstd::seq_lib::to_multiset_len(d);
            vstd::seq_lib::to_multiset_len(c2);
            lemma_children_stats(n1, c1.len() as int);
            lemma_children_stats(n2, c2.len() as int);
            assert(c1.take(c1.len() as int) =~= c1);
            assert(d.take(d.len() as int) =~= d);
            assert(c2.take(c2.len() as int) =~= c2);
        },
    }
}

/// The file count and the total size of a tree do not depend on the order
/// in which the entries of its directories were read.
pub proof fn law_tree_stats_ignore_read_order(n1: TreeNode, n2: TreeNode)
    requires
        same_tree_up_to_read_order(n1, n2),
    ensures
        file_count(n1) == file_count(n2),
        total_size(n1) == total_size(n2),
{
    lemma_same_tree_stats(n1, n2);
}

/// Every file row counts once in the overview, whatever the file's size
/// (an empty file included), and adds its known length to the total: a file
/// counts 1 exactly when it renders a row, and a file without a row counts
/// nothing.
pub proof fn law_each_file_row_counts_once(n: TreeNode, prefix: Seq<char>)
    requires
        n is File,
    ensures
        file_count(n) == if render_node(n, prefix).len() > 0 {
            1nat
        } else {
            0nat
        },
        total_size(n) == if render_node(n, prefix).len() > 0 {
            match n->File_size {
                Some(b) => b as nat,
                None => 0nat,
            }
        } else {
            0nat
        },
{
    reveal_strlit("🎬");
    reveal_strlit("🎵");
    reveal_strlit("🖼️");
    reveal_strlit("📄");
    reveal_strlit("📝");
    reveal_strlit("📦");
    reveal_strlit("💿");
    if let TreeNode::File { name, rel_path: Some(p), size, modified } = n {
        let icon = icon_text(spec_file_kind(node_name(n)));
        assert(icon.len() > 0);
        let row = render_node(n, prefix);
        assert(row.len() >= icon.len());
    }
}

/// The list item of an entry: `<li>`, its HTML and `</li>`.
pub open spec fn list_item(entry: TreeNode, prefix: Seq<char>) -> Seq<char> {
    "<li>"@ + render_node(entry, prefix) + "</li>"@
}

/// Whether `part` occurs in `whole` as a contiguous piece.
pub open spec fn occurs_in(part: Seq<char>, whole: Seq<char>) -> bool {
    exists|a: int| 0 <= a && a + part.len() <= whole.len() && #[trigger] whole.subrange(a, a + part.len()) == part
}

proof fn lemma_occurs_in_concat(part: Seq<char>, x: Seq<char>, y: Seq<char>)
    ensures
        occurs_in(part, x) ==> occurs_in(part, x + y),
        occurs_in(part, y) ==> occurs_in(part, x + y),
{
    if occurs_in(part, x) {
        let a = choose|a: int| 0 <= a && a + part.len() <= x.len() && #[trigger] x.subrange(a, a + part.len()) == part;
        assert((x + y).subrange(a, a + part.len()) =~= x.subrange(a, a + part.len()));
    }
    if occurs_in(part, y) {
        let a = choose|a: int| 0 <= a && a + part.len() <= y.len() && #[trigger] y.subrange(a, a + part.len()) == part;
        let b = a + x.len();
        assert((x + y).subrange(b, b + part.len()) =~= y.subrange(a, a + part.len()));
    }
}

proof fn lemma_items_hold_each_listed_entry(dir: TreeNode, prefix: Seq<char>, k: int, q: int)
    requires
        dir is Dir,
        0 <= q < k <= sort_order(dir->Dir_children@).len(),
        0 <= sort_order(dir->Dir_children@)[q] < dir->Dir_children@.len(),
    ensures
        occurs_in(
            list_item(dir->Dir_children@[sort_order(dir->Dir_children@)[q]], prefix),
            render_items(dir, prefix, k),
        ),
    decreases k,
{
    let c = dir->Dir_children@;
    let item = list_item(c[sort_order(c)[q]], prefix);
    let before = render_items(dir, prefix, k - 1);
    if q == k - 1 {
        assert(render_items(dir, prefix, k) =~= before + item);
        assert((before + item).subrange(before.len() as int, (before.len() + item.len()) as int) =~= item);
    } else {
        lemma_items_hold_each_listed_entry(dir, prefix, k - 1, q);
        let j = sort_order(c)[k - 1];
        let piece = if 0 <= j < c.len() {
            "<li>"@ + render_node(c[j], prefix) + "</li>"@
        } else {
            Seq::empty()
        };
        assert(render_items(dir, prefix, k) == before + piece);
        lemma_occurs_in_concat(item, before, piece);
    }
}

/// A directory lists every one of its entries, whatever its name or kind:
/// the HTML of each entry, wrapped in `<li>` and `</li>`, occurs in the
/// HTML of the directory.
pub proof fn law_directory_lists_every_entry(dir: TreeNode, prefix: Seq<char>, j: int)
    requires
        dir is Dir,
        0 <= j < dir->Dir_children@.len(),
    ensures
        occurs_in(list_item(dir->Dir_children@[j], prefix), render_node(dir, prefix)),
{
    broadcast use vstd::seq_lib::group_to_multiset_ensures;

    let c = dir->Dir_children@;
    let o = sort_order(c);
    law_listing_order_is_permutation(c);
    lemma_sort_order_from_multiset(c, 0);
    assert(c.skip(0) =~= c);
    let listed = entries_at(c, o);
    assert(c.to_multiset().count(c[j]) > 0);
    assert(listed.contains(c[j]));
    let q = choose|q: int| 0 <= q < listed.len() && listed[q] == c[j];
    assert(listed[q] == c[o[q]]);
    lemma_items_hold_each_listed_entry(dir, prefix, o.len() as int, q);
    let items = render_items(dir, prefix, o.len() as int);
    let head = "<details open><summary>"@ + display_name(dir->Dir_name) + "</summary><ul>"@;
    assert(render_node(dir, prefix) == head + items + "</ul></details>"@);
    lemma_occurs_in_concat(list_item(c[j], prefix), head, items);
    lemma_occurs_in_concat(list_item(c[j], prefix), head + items, "</ul></details>"@);
}

} // verus!
